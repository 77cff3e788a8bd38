use evaluator::html::parse_listing;
use evaluator::json::official_levels_from_json;

#[test]
fn a_page_lists_the_ids_of_its_items() {
    let body = r#"<html><body>
        <div class="workshopItem"><a class="ugc" data-publishedfileid="111" href="x">one</a></div>
        <div class="workshopItem"><a class="big ugc" data-publishedfileid="222">two</a></div>
        <div class="workshopItem"><a class="ugc">no id</a></div>
        <div class="workshopItem"><a class="ugcx" data-publishedfileid="333">other class</a></div>
        <div class="workshopItem"><a data-publishedfileid="444">no class</a></div>
        </body></html>"#;
    assert_eq!(parse_listing(body), Some(vec!["111".to_string(), "222".to_string()]));
}

#[test]
fn a_page_that_says_no_items_lists_nothing() {
    let body = r#"<html><body><div id="no_items">No items matching your search criteria were found.</div>
        <a class="ugc" data-publishedfileid="111">stale</a></body></html>"#;
    assert_eq!(parse_listing(body), None);
}

#[test]
fn a_page_without_items_or_mark_lists_an_empty_page() {
    assert_eq!(parse_listing("<html><body><p id=\"items\">hello</p></body></html>"), Some(vec![]));
    assert_eq!(parse_listing(""), Some(vec![]));
    assert_eq!(parse_listing("no_items"), Some(vec![]));
}

#[test]
fn official_levels_come_as_a_json_array_of_strings() {
    assert_eq!(
        official_levels_from_json(r#"["LevelA", "Broken Symmetry"]"#),
        Some(vec!["LevelA".to_string(), "Broken Symmetry".to_string()])
    );
    assert_eq!(official_levels_from_json("[]"), Some(vec![]));
    assert_eq!(official_levels_from_json(" [ \"a\\u0041\" ] "), Some(vec!["aA".to_string()]));
}

#[test]
fn a_malformed_list_of_official_levels_is_no_list() {
    assert_eq!(official_levels_from_json(""), None);
    assert_eq!(official_levels_from_json("LevelA"), None);
    assert_eq!(official_levels_from_json("[1, 2]"), None);
    assert_eq!(official_levels_from_json(r#"{"levels": []}"#), None);
    assert_eq!(official_levels_from_json(r#"["a","#), None);
}
