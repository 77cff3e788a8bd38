use evaluator::workshop::{
    details_of, for_distance_workshop, get_distance_workshop_page, get_level_details, FetchStep,
    PageStep, RetryPolicy, StatusError, SteamGetPublishedFileDetailsResponse,
    SteamPublishedFileDetails,
    SteamPublishedFileDetailsList, DETAILS_URL, LISTING_URL, PAGE_ATTEMPTS, PAGE_RETRY_SECS,
    RETRY_INTERVAL_MS,
};

fn delivered(step: PageStep) -> Option<Option<Vec<String>>> {
    match step {
        PageStep::Deliver(page) => Some(page),
        PageStep::RetryAfter { .. } => None,
    }
}

#[test]
fn a_page_that_fills_on_the_fifth_attempt_is_returned() {
    let mut request = get_distance_workshop_page(3);
    for _ in 0..4 {
        match request.after_attempt(None) {
            PageStep::RetryAfter { wait_secs } => assert_eq!(wait_secs, 5),
            PageStep::Deliver(_) => panic!("gave up early"),
        }
    }
    let page = vec!["111".to_string(), "222".to_string()];
    assert_eq!(delivered(request.after_attempt(Some(page.clone()))), Some(Some(page)));
}

#[test]
fn five_empty_attempts_end_the_listing() {
    let mut request = get_distance_workshop_page(3);
    for _ in 0..4 {
        assert_eq!(delivered(request.after_attempt(None)), None);
    }
    assert_eq!(delivered(request.after_attempt(None)), Some(None));
    assert_eq!(delivered(request.after_attempt(None)), Some(None));
}

#[test]
fn a_page_with_items_is_returned_at_once() {
    let mut request = get_distance_workshop_page(1);
    assert_eq!(delivered(request.after_attempt(Some(vec![]))), Some(Some(vec![])));
    let mut request = get_distance_workshop_page(1);
    let page = vec!["9".to_string()];
    assert_eq!(delivered(request.after_attempt(Some(page.clone()))), Some(Some(page)));
}

#[test]
fn the_attempt_budget_is_the_reference_one() {
    assert_eq!(PAGE_ATTEMPTS, 5);
    assert_eq!(PAGE_RETRY_SECS, 5);
    assert_eq!(RETRY_INTERVAL_MS, 1000);
}

#[test]
fn listings_are_judged_by_their_html() {
    let empty = r#"<html><body><div id="no_items">nothing</div></body></html>"#;
    let full = r#"<html><body><a class="ugc" data-publishedfileid="42">x</a></body></html>"#;
    let mut request = get_distance_workshop_page(2);
    for _ in 0..4 {
        assert_eq!(delivered(request.after_listing(empty)), None);
    }
    assert_eq!(delivered(request.after_listing(full)), Some(Some(vec!["42".to_string()])));
    let mut request = get_distance_workshop_page(2);
    for _ in 0..4 {
        assert_eq!(delivered(request.after_listing(empty)), None);
    }
    assert_eq!(delivered(request.after_listing(empty)), Some(None));
}

#[test]
fn pages_are_asked_for_in_order_from_one() {
    let mut getter = for_distance_workshop();
    assert_eq!(getter.page_number(), 0);
    let first = getter.next_getter_page();
    assert_eq!(first.page(), 1);
    assert_eq!(first.url(), format!("{}1", LISTING_URL));
    let second = getter.next_getter_page();
    assert_eq!(second.page(), 2);
    assert_eq!(getter.page_number(), 2);
    assert_eq!(
        second.url(),
        "https://steamcommunity.com/workshop/browse/?appid=233610&actualsort=mostrecent&browsesort=mostrecent&p=2"
    );
}

#[test]
fn the_details_request_numbers_its_files() {
    let levels = vec!["111".to_string(), "222".to_string(), "333".to_string()];
    let request = get_level_details(&levels, 10000);
    assert_eq!(
        request.body,
        "itemcount=3&publishedfileids%5B0%5D=111&publishedfileids%5B1%5D=222&publishedfileids%5B2%5D=333"
    );
    assert_eq!(request.policy.timeout_ms, 10000);
    assert_eq!(request.policy.retry_interval_ms, 1000);
    assert_eq!(get_level_details(&vec![], 1).body, "itemcount=0");
    let many: Vec<String> = (0..12).map(|i| format!("f{}", i)).collect();
    assert!(get_level_details(&many, 1).body.ends_with("&publishedfileids%5B11%5D=f11"));
    assert!(get_level_details(&many, 1).body.starts_with("itemcount=12&publishedfileids%5B0%5D=f0&"));
    assert!(DETAILS_URL.starts_with("https://api.steampowered.com/"));
}

#[test]
fn a_success_is_accepted() {
    let request = get_level_details(&vec![], 10000);
    assert!(matches!(request.after_response(200, 0), FetchStep::Accept));
    assert!(matches!(request.after_response(299, 20000), FetchStep::Accept));
    assert!(matches!(request.after_response(204, 10000), FetchStep::Accept));
}

#[test]
fn a_failure_is_tried_again_until_the_time_is_up() {
    let request = get_level_details(&vec![], 10000);
    match request.after_response(503, 0) {
        FetchStep::RetryAfter { wait_ms } => assert_eq!(wait_ms, 1000),
        _ => panic!("no retry"),
    }
    assert!(matches!(request.after_response(199, 9999), FetchStep::RetryAfter { wait_ms: 1000 }));
    assert!(matches!(request.after_response(300, 9999), FetchStep::RetryAfter { wait_ms: 1000 }));
    match request.after_response(503, 10000) {
        FetchStep::GiveUp(error) => {
            assert_eq!(error.status_code, 503);
            assert_eq!(error.message(), "A request failed: Status code 503");
        },
        _ => panic!("no failure"),
    }
    assert!(matches!(
        request.after_response(404, u128::MAX),
        FetchStep::GiveUp(StatusError { status_code: 404 })
    ));
}

#[test]
fn a_policy_of_its_own_waits_its_own_time() {
    let policy = RetryPolicy { retry_interval_ms: 250, timeout_ms: 2000 };
    assert!(matches!(policy.after_response(500, 1999), FetchStep::RetryAfter { wait_ms: 250 }));
    assert!(matches!(
        policy.after_response(500, 2000),
        FetchStep::GiveUp(StatusError { status_code: 500 })
    ));
    assert!(matches!(policy.after_response(200, 5000), FetchStep::Accept));
}

#[test]
fn an_accepted_answer_carries_its_details() {
    let answer = SteamGetPublishedFileDetailsResponse {
        response: SteamPublishedFileDetailsList {
            result: 1,
            resultcount: 2,
            publishedfiledetails: vec![
                SteamPublishedFileDetails {
                    publishedfileid: "111".to_string(),
                    title: Some("One".to_string()),
                    filename: Some("one.bytes".to_string()),
                    creator: Some("c1".to_string()),
                    result: 1,
                },
                SteamPublishedFileDetails {
                    publishedfileid: "222".to_string(),
                    title: None,
                    filename: None,
                    creator: None,
                    result: 9,
                },
            ],
        },
    };
    let details = details_of(answer);
    assert_eq!(details.len(), 2);
    assert_eq!(details[0].publishedfileid, "111");
    assert_eq!(details[1].result, 9);
}
