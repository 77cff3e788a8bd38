//! The workshop: the catalog of community levels.  Its listing is read
//! page by page, and the details of the listed levels are asked for in one
//! request per page.  Nothing here touches the network: each request is
//! described, and each answer is judged, so that the caller only sends,
//! waits and hands the answers back.
use crate::html::{html_attributes, ids_text, listing, parse_listing};
use crate::text::{decimal, push_decimal};
use vstd::prelude::*;
use vstd::string::*;

verus! {

/// What the catalog tells of one published file.
#[derive(Debug)]
pub struct SteamPublishedFileDetails {
    pub publishedfileid: String,
    pub title: Option<String>,
    pub filename: Option<String>,
    pub creator: Option<String>,
    pub result: u8,
}

/// The catalog's answer to a request for details.
#[derive(Debug)]
pub struct SteamPublishedFileDetailsList {
    pub result: usize,
    pub resultcount: usize,
    pub publishedfiledetails: Vec<SteamPublishedFileDetails>,
}

/// The envelope of the catalog's answer.
#[derive(Debug)]
pub struct SteamGetPublishedFileDetailsResponse {
    pub response: SteamPublishedFileDetailsList,
}

/// A request that kept failing until its time was up.
#[derive(Debug)]
pub struct StatusError {
    /// The status of the last answer.
    pub status_code: u16,
}

impl StatusError {
    /// The error in words: `A request failed: Status code <code>`.
    pub fn message(&self) -> (text: String)
        ensures
            text@ == "A request failed: Status code "@ + decimal(self.status_code as nat),
    {
        let mut text: String = String::from_str("A request failed: Status code ");
        push_decimal(&mut text, self.status_code as u64);
        text
    }
}

/// The time to wait after a failed request, in milliseconds.
pub const RETRY_INTERVAL_MS: u64 = 1000;

/// The number of answers without items after which a listing page counts
/// as empty.
pub const PAGE_ATTEMPTS: u8 = 5;

/// The time to wait after a listing page without items, in seconds.
pub const PAGE_RETRY_SECS: u64 = 5;

/// Where the details of published files are asked for.
pub const DETAILS_URL: &'static str =
    "https://api.steampowered.com/ISteamRemoteStorage/GetPublishedFileDetails/v1/";

/// Where the workshop is listed, up to the page number.
pub const LISTING_URL: &'static str =
    "https://steamcommunity.com/workshop/browse/?appid=233610&actualsort=mostrecent&browsesort=mostrecent&p=";

/// The part of a request for details that names the files: for the file
/// at position `i`, `&publishedfileids%5B<i>%5D=<id>`.
pub open spec fn id_parameters(levels: Seq<Seq<char>>) -> Seq<char>
    decreases levels.len(),
{
    if levels.len() == 0 {
        Seq::empty()
    } else {
        id_parameters(levels.drop_last()) + "&publishedfileids%5B"@ + decimal(
            (levels.len() - 1) as nat,
        ) + "%5D="@ + levels.last()
    }
}

/// The body of a request for the details of `levels`.
pub open spec fn details_request_body(levels: Seq<Seq<char>>) -> Seq<char> {
    "itemcount="@ + decimal(levels.len()) + id_parameters(levels)
}

/// Whether a status is one of success: 200 to 299.
pub open spec fn is_success(status_code: u16) -> bool {
    200 <= status_code < 300
}

/// How long a failing request is tried again.
#[derive(Debug, Clone, Copy, PartialEq, Eq, Structural)]
pub struct RetryPolicy {
    /// The time to wait after a failed answer, in milliseconds.
    pub retry_interval_ms: u64,
    /// The time after which a failed answer is final, in milliseconds
    /// from the first attempt.
    pub timeout_ms: u64,
}

/// What to do with an answer to a request.
#[derive(Debug)]
pub enum FetchStep {
    /// The answer is good: decode it.
    Accept,
    /// The answer is a failure: wait, then send the request again.
    RetryAfter { wait_ms: u64 },
    /// The answer is a failure and the time is up.
    GiveUp(StatusError),
}

/// What a policy makes of an answer of status `status_code` that came
/// `elapsed_ms` after the first attempt: a success is accepted; a failure
/// is final once the time is up, and is tried again after the policy's
/// interval before that.
pub open spec fn fetch_step(policy: RetryPolicy, status_code: u16, elapsed_ms: u128) -> FetchStep {
    if is_success(status_code) {
        FetchStep::Accept
    } else if elapsed_ms >= policy.timeout_ms {
        FetchStep::GiveUp(StatusError { status_code })
    } else {
        FetchStep::RetryAfter { wait_ms: policy.retry_interval_ms }
    }
}

impl RetryPolicy {
    /// What to do with an answer of status `status_code` that came
    /// `elapsed_ms` after the first attempt.
    pub fn after_response(&self, status_code: u16, elapsed_ms: u128) -> (step: FetchStep)
        ensures
            step == fetch_step(*self, status_code, elapsed_ms),
    {
        if 200 <= status_code && status_code < 300 {
            FetchStep::Accept
        } else if elapsed_ms >= self.timeout_ms as u128 {
            FetchStep::GiveUp(StatusError { status_code })
        } else {
            FetchStep::RetryAfter { wait_ms: self.retry_interval_ms }
        }
    }
}

/// A request for the details of some published files, to be posted to
/// `DETAILS_URL` as a form.
#[derive(Debug)]
pub struct LevelDetailsRequest {
    pub body: String,
    pub policy: RetryPolicy,
}

/// The request for the details of `levels`, which is tried again every
/// `RETRY_INTERVAL_MS` and gives up `timeout_ms` after its first attempt.
pub fn get_level_details(levels: &Vec<String>, timeout_ms: u64) -> (request: LevelDetailsRequest)
    ensures
        request.body@ == details_request_body(levels.deep_view()),
        request.policy == (RetryPolicy { retry_interval_ms: RETRY_INTERVAL_MS, timeout_ms }),
{
    let count: usize = levels.len();
    let mut body: String = String::from_str("itemcount=");
    push_decimal(&mut body, count as u64);
    let ghost all = levels.deep_view();
    let ghost head = body@;
    let mut index: usize = 0;
    assert(all.take(0) =~= Seq::empty());
    while index < count
        invariant
            index <= count,
            count == levels@.len(),
            all == levels.deep_view(),
            body@ == head + id_parameters(all.take(index as int)),
        decreases count - index,
    {
        body.append("&publishedfileids%5B");
        push_decimal(&mut body, index as u64);
        body.append("%5D=");
        body.append(levels[index].as_str());
        proof {
            let next = all.take(index as int + 1);
            assert(next.drop_last() =~= all.take(index as int));
            assert(next.last() == levels@[index as int]@);
            assert(body@ =~= head + id_parameters(next));
        }
        index = index + 1;
    }
    assert(all.take(count as int) =~= all);
    LevelDetailsRequest { body, policy: RetryPolicy { retry_interval_ms: RETRY_INTERVAL_MS, timeout_ms } }
}

impl LevelDetailsRequest {
    /// What to do with an answer of status `status_code` that came
    /// `elapsed_ms` after the first attempt.
    pub fn after_response(&self, status_code: u16, elapsed_ms: u128) -> (step: FetchStep)
        ensures
            step == fetch_step(self.policy, status_code, elapsed_ms),
    {
        self.policy.after_response(status_code, elapsed_ms)
    }
}

/// The details that an accepted answer carries.
pub fn details_of(answer: SteamGetPublishedFileDetailsResponse) -> (details: Vec<
    SteamPublishedFileDetails,
>)
    ensures
        details == answer.response.publishedfiledetails,
{
    answer.response.publishedfiledetails
}

/// What a round of attempts at one listing page comes to.
pub enum PageVerdict {
    /// The page showed no items: wait, then ask again.
    RetryAfter { wait_secs: u64 },
    /// The page is settled: `Some` with the ids that it lists, or `None`
    /// where the listing has ended.
    Deliver(Option<Seq<Seq<char>>>),
}

/// What to do after an attempt at a listing page.
#[derive(Debug)]
pub enum PageStep {
    /// The page showed no items: wait, then ask again.
    RetryAfter { wait_secs: u64 },
    /// The page is settled: `Some` with the ids that it lists, or `None`
    /// where the listing has ended.
    Deliver(Option<Vec<String>>),
}

impl View for PageStep {
    type V = PageVerdict;

    open spec fn view(&self) -> PageVerdict {
        match self {
            PageStep::RetryAfter { wait_secs } => PageVerdict::RetryAfter { wait_secs: *wait_secs },
            PageStep::Deliver(ids) => PageVerdict::Deliver(ids_text(*ids)),
        }
    }
}

/// The number of empty answers after one more.
pub open spec fn empties_after(empties: nat) -> nat {
    if empties + 1 >= PAGE_ATTEMPTS {
        PAGE_ATTEMPTS as nat
    } else {
        empties + 1
    }
}

/// What one attempt comes to, after `empties` answers without items: a
/// page with items is delivered whatever came before; an answer without
/// items is believed at the `PAGE_ATTEMPTS`th time.
pub open spec fn page_verdict(empties: nat, answer: Option<Seq<Seq<char>>>) -> PageVerdict {
    match answer {
        Some(ids) => PageVerdict::Deliver(Some(ids)),
        None => if empties + 1 >= PAGE_ATTEMPTS {
            PageVerdict::Deliver(None)
        } else {
            PageVerdict::RetryAfter { wait_secs: PAGE_RETRY_SECS }
        },
    }
}

/// What a round of attempts delivers when the source answers with
/// `answers` in turn, after `empties` answers without items: `None` while
/// the round is not over.
pub open spec fn page_outcome(empties: nat, answers: Seq<Option<Seq<Seq<char>>>>) -> Option<
    Option<Seq<Seq<char>>>,
>
    decreases answers.len(),
{
    if answers.len() == 0 {
        None
    } else {
        match page_verdict(empties, answers[0]) {
            PageVerdict::Deliver(page) => Some(page),
            PageVerdict::RetryAfter { wait_secs } => page_outcome(
                empties_after(empties),
                answers.drop_first(),
            ),
        }
    }
}

/// `count` answers without items.
pub open spec fn empty_answers(count: nat) -> Seq<Option<Seq<Seq<char>>>> {
    Seq::new(count, |i: int| None)
}

/// A page with items is delivered after fewer than `PAGE_ATTEMPTS` answers
/// without items: the round does not give up early.
pub proof fn lemma_page_survives_empty_answers(empties: nat, count: nat, ids: Seq<Seq<char>>)
    requires
        empties + count < PAGE_ATTEMPTS,
    ensures
        page_outcome(empties, empty_answers(count).push(Some(ids))) == Some(Some(ids)),
    decreases count,
{
    let answers = empty_answers(count).push(Some(ids));
    if count > 0 {
        assert(answers.drop_first() =~= empty_answers((count - 1) as nat).push(Some(ids)));
        lemma_page_survives_empty_answers(empties + 1, (count - 1) as nat, ids);
    }
}

/// `PAGE_ATTEMPTS` answers without items in a row end the listing.
pub proof fn lemma_page_ends_after_empty_answers(empties: nat, count: nat)
    requires
        empties + count == PAGE_ATTEMPTS,
        count >= 1,
    ensures
        page_outcome(empties, empty_answers(count)) == Some(None::<Seq<Seq<char>>>),
    decreases count,
{
    let answers = empty_answers(count);
    if count > 1 {
        assert(answers.drop_first() =~= empty_answers((count - 1) as nat));
        lemma_page_ends_after_empty_answers(empties + 1, (count - 1) as nat);
    }
}

/// A round of attempts at one page of the workshop's listing.
#[derive(Debug)]
pub struct WorkshopPageRequest {
    url: String,
    page: u32,
    empties: u8,
}

impl WorkshopPageRequest {
    /// The address of the page.
    pub closed spec fn address(&self) -> Seq<char> {
        self.url@
    }

    /// The number of the page.
    pub closed spec fn number(&self) -> u32 {
        self.page
    }

    /// The address of the page.
    pub fn url(&self) -> (url: &str)
        ensures
            url@ == self.address(),
    {
        self.url.as_str()
    }

    /// The number of the page.
    pub fn page(&self) -> (page: u32)
        ensures
            page == self.number(),
    {
        self.page
    }

    /// The number of answers without items so far, `PAGE_ATTEMPTS` at most.
    pub closed spec fn empties(&self) -> nat {
        if self.empties >= PAGE_ATTEMPTS {
            PAGE_ATTEMPTS as nat
        } else {
            self.empties as nat
        }
    }

    /// Judges one answer: `Some` with the ids that the page lists, or
    /// `None` where the page showed no items.
    pub fn after_attempt(&mut self, answer: Option<Vec<String>>) -> (step: PageStep)
        ensures
            step@ == page_verdict(old(self).empties(), ids_text(answer)),
            final(self).empties() == (if answer is None {
                empties_after(old(self).empties())
            } else {
                old(self).empties()
            }),
            final(self).address() == old(self).address(),
            final(self).number() == old(self).number(),
    {
        match answer {
            Some(ids) => PageStep::Deliver(Some(ids)),
            None => {
                if self.empties < PAGE_ATTEMPTS {
                    self.empties = self.empties + 1;
                }
                if self.empties >= PAGE_ATTEMPTS {
                    PageStep::Deliver(None)
                } else {
                    PageStep::RetryAfter { wait_secs: PAGE_RETRY_SECS }
                }
            },
        }
    }

    /// Judges one answer by its text, the HTML of the listing page.
    pub fn after_listing(&mut self, body: &str) -> (step: PageStep)
        ensures
            step@ == page_verdict(old(self).empties(), listing(html_attributes(body@))),
            final(self).empties() == (if listing(html_attributes(body@)) is None {
                empties_after(old(self).empties())
            } else {
                old(self).empties()
            }),
            final(self).address() == old(self).address(),
            final(self).number() == old(self).number(),
    {
        self.after_attempt(parse_listing(body))
    }
}

/// A fresh round of attempts at page `page` of the workshop's listing.
pub fn get_distance_workshop_page(page: u32) -> (request: WorkshopPageRequest)
    ensures
        request.address() == LISTING_URL@ + decimal(page as nat),
        request.number() == page,
        request.empties() == 0,
{
    let mut url: String = String::from_str(LISTING_URL);
    push_decimal(&mut url, page as u64);
    WorkshopPageRequest { url, page, empties: 0 }
}

/// The walk through the workshop's listing: it hands out one page request
/// after the other, each for the page after the last.
#[derive(Debug)]
pub struct DistanceWorkshopGetter {
    page_num: u32,
}

impl DistanceWorkshopGetter {
    /// The number of the page asked for last; 0 before the first.
    pub closed spec fn page(&self) -> u32 {
        self.page_num
    }

    /// The number of the page asked for last; 0 before the first.
    pub fn page_number(&self) -> (page: u32)
        ensures
            page == self.page(),
    {
        self.page_num
    }

    /// Moves to the next page and opens a round of attempts at it.
    pub fn next_getter_page(&mut self) -> (request: WorkshopPageRequest)
        requires
            old(self).page() < u32::MAX,
        ensures
            final(self).page() == old(self).page() + 1,
            request.number() == final(self).page(),
            request.address() == LISTING_URL@ + decimal(request.number() as nat),
            request.empties() == 0,
    {
        self.page_num = self.page_num + 1;
        get_distance_workshop_page(self.page_num)
    }
}

/// A walk through the workshop's listing that has asked for no page yet.
pub fn for_distance_workshop() -> (getter: DistanceWorkshopGetter)
    ensures
        getter.page() == 0,
{
    DistanceWorkshopGetter { page_num: 0 }
}

} // verus!
