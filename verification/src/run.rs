//! The run: first the official levels, then the workshop page by page,
//! then the levels' evaluation sums.  The run decides and the caller acts:
//! `Orchestrator::step` takes what the last action brought and answers
//! with the next action.  Everything that reaches the store goes through
//! it here.
use crate::ingest::{ingested, update_certain_leaderboard, LeaderboardFetch};
use crate::ledger::Ledger;
use crate::store::ScoreStore;
use crate::text::{
    decimal, get_leaderboard_name_official, get_leaderboard_name_workshop,
    get_level_filename_no_ext, level_extension, official_name, without_trailing, workshop_name,
};
use crate::workshop::{
    details_request_body, for_distance_workshop, get_level_details, DistanceWorkshopGetter,
    LevelDetailsRequest, RetryPolicy, SteamPublishedFileDetails, WorkshopPageRequest,
    LISTING_URL, RETRY_INTERVAL_MS,
};
use vstd::prelude::*;
use vstd::string::*;

verus! {

/// The game mode whose leaderboards are read.
pub const GAME_MODE_SPRINT: u8 = 1;

/// The number of workshop pages after which the run stops asking.
pub const MAX_PAGES: u32 = 1000;

/// The time that a request for details is given, in milliseconds.
pub const DETAILS_TIMEOUT_MS: u64 = 10000;

/// What stands for the catalog id of an official level.
pub open spec fn official_file_id() -> Seq<char> {
    seq!['o', 'f', 'f', 'i', 'c', 'i', 'a', 'l']
}

/// A level whose leaderboard is to be read.
#[derive(Debug)]
pub struct LevelCandidate {
    pub leaderboard_name: String,
    pub source_file_id: String,
    pub display_name: String,
}

/// A candidate, as characters.
pub struct CandidateText {
    pub leaderboard_name: Seq<char>,
    pub source_file_id: Seq<char>,
    pub display_name: Seq<char>,
}

impl View for LevelCandidate {
    type V = CandidateText;

    open spec fn view(&self) -> CandidateText {
        CandidateText {
            leaderboard_name: self.leaderboard_name@,
            source_file_id: self.source_file_id@,
            display_name: self.display_name@,
        }
    }
}

/// The candidate that an official level's base file name makes.
pub open spec fn official_candidate_text(filename: Seq<char>) -> CandidateText {
    CandidateText {
        leaderboard_name: official_name(filename, GAME_MODE_SPRINT as nat),
        source_file_id: official_file_id(),
        display_name: filename,
    }
}

/// The candidate that a published file's details make: none where the
/// creator or the file name is missing.  The level is shown under its
/// title, or under its file name without extension where it has none.
pub open spec fn workshop_candidate_text(detail: SteamPublishedFileDetails) -> Option<
    CandidateText,
> {
    if detail.creator is Some && detail.filename is Some {
        let file = without_trailing(detail.filename->0@, level_extension());
        Some(
            CandidateText {
                leaderboard_name: workshop_name(
                    file,
                    GAME_MODE_SPRINT as nat,
                    detail.creator->0@,
                ),
                source_file_id: detail.publishedfileid@,
                display_name: match detail.title {
                    Some(title) => title@,
                    None => file,
                },
            },
        )
    } else {
        None
    }
}

/// The candidates of a list of official levels, in its order.
pub open spec fn official_candidates(filenames: Seq<String>) -> Seq<CandidateText> {
    Seq::new(filenames.len(), |i: int| official_candidate_text(filenames[i]@))
}

/// The candidates among the details of a page, in their order.
pub open spec fn workshop_candidates(details: Seq<SteamPublishedFileDetails>) -> Seq<CandidateText>
    decreases details.len(),
{
    if details.len() == 0 {
        Seq::empty()
    } else {
        match workshop_candidate_text(details.last()) {
            Some(candidate) => workshop_candidates(details.drop_last()).push(candidate),
            None => workshop_candidates(details.drop_last()),
        }
    }
}

/// The candidate for an official level.
pub fn official_candidate(filename: &str) -> (candidate: LevelCandidate)
    ensures
        candidate@ == official_candidate_text(filename@),
{
    proof {
        reveal_strlit("official");
        assert("official"@ =~= official_file_id());
    }
    LevelCandidate {
        leaderboard_name: get_leaderboard_name_official(filename, GAME_MODE_SPRINT),
        source_file_id: String::from_str("official"),
        display_name: String::from_str(filename),
    }
}

/// The candidate for a published file, if its details name a creator and
/// a file.
pub fn workshop_candidate(detail: &SteamPublishedFileDetails) -> (candidate: Option<LevelCandidate>)
    ensures
        candidate is Some <==> workshop_candidate_text(*detail) is Some,
        candidate matches Some(c) ==> Some(c@) == workshop_candidate_text(*detail),
{
    match (&detail.creator, &detail.filename) {
        (Some(creator), Some(filename)) => {
            let file: String = get_level_filename_no_ext(filename.as_str());
            let leaderboard_name: String = get_leaderboard_name_workshop(
                file.as_str(),
                GAME_MODE_SPRINT,
                creator.as_str(),
            );
            let display_name: String = match &detail.title {
                Some(title) => title.clone(),
                None => file,
            };
            Some(
                LevelCandidate {
                    leaderboard_name,
                    source_file_id: detail.publishedfileid.clone(),
                    display_name,
                },
            )
        },
        _ => None,
    }
}

/// The stages of a run, in the order in which it passes through them.
#[derive(Debug, Clone, Copy, PartialEq, Eq, Structural)]
pub enum Phase {
    Officials,
    WorkshopPaging,
    FinalRecompute,
    Done,
}

/// What a run waits for.
#[derive(Debug, Clone, Copy, PartialEq, Eq, Structural)]
pub enum Awaited {
    Start,
    Leaderboard,
    Page,
    Details,
    Commit,
    Nothing,
}

/// What the caller reports to the run.
#[derive(Debug)]
pub enum Event {
    /// The run may begin.
    Start,
    /// The answer to `Action::FetchLeaderboard`.
    Leaderboard(LeaderboardFetch),
    /// The answer to `Action::FetchPage`: the ids that the page lists, or
    /// `None` where the listing has ended.
    Page(Option<Vec<String>>),
    /// The answer to `Action::FetchDetails`.
    Details(Vec<SteamPublishedFileDetails>),
    /// `Action::Commit` is done.
    Committed,
}

/// What the run asks of the caller.
#[derive(Debug)]
pub enum Action {
    /// Ask the source for the candidate's leaderboard.
    FetchLeaderboard(LevelCandidate),
    /// Ask the workshop for a page of its listing.
    FetchPage(WorkshopPageRequest),
    /// Ask the catalog for the details of a page's files.
    FetchDetails(LevelDetailsRequest),
    /// Make what the store holds durable: one unit of work is complete.
    Commit,
    /// Nothing is left to do.
    Finished,
}

/// An action, as characters and numbers.
pub enum ActionText {
    FetchLeaderboard(CandidateText),
    FetchPage { page: nat, address: Seq<char>, empties: nat },
    FetchDetails { body: Seq<char>, policy: RetryPolicy },
    Commit,
    Finished,
}

impl View for Action {
    type V = ActionText;

    open spec fn view(&self) -> ActionText {
        match self {
            Action::FetchLeaderboard(candidate) => ActionText::FetchLeaderboard(candidate@),
            Action::FetchPage(request) => ActionText::FetchPage {
                page: request.number() as nat,
                address: request.address(),
                empties: request.empties(),
            },
            Action::FetchDetails(request) => ActionText::FetchDetails {
                body: request.body@,
                policy: request.policy,
            },
            Action::Commit => ActionText::Commit,
            Action::Finished => ActionText::Finished,
        }
    }
}

/// What an event answers.
pub open spec fn answers(event: Event) -> Awaited {
    match event {
        Event::Start => Awaited::Start,
        Event::Leaderboard(_) => Awaited::Leaderboard,
        Event::Page(_) => Awaited::Page,
        Event::Details(_) => Awaited::Details,
        Event::Committed => Awaited::Commit,
    }
}

/// The state of a run.
pub struct RunState {
    pub phase: Phase,
    pub awaiting: Awaited,
    /// The number of leaderboards asked for so far.
    pub level_count: nat,
    /// The number of workshop pages asked for so far.
    pub pages: nat,
    /// The candidates of the unit of work that is open.
    pub queue: Seq<CandidateText>,
    /// The position in `queue` of the candidate that is next.
    pub next: nat,
    /// The official levels, if a list was supplied.
    pub officials: Option<Seq<CandidateText>>,
    /// Whether the workshop is to be read.
    pub run_workshop: bool,
    /// The most leaderboards to ask for, if there is a cap.
    pub level_limit: Option<nat>,
}

impl RunState {
    /// A run that has not begun.
    pub open spec fn initial(
        officials: Option<Seq<CandidateText>>,
        run_workshop: bool,
        level_limit: Option<nat>,
    ) -> RunState {
        RunState {
            phase: Phase::Officials,
            awaiting: Awaited::Start,
            level_count: 0,
            pages: 0,
            queue: Seq::empty(),
            next: 0,
            officials,
            run_workshop,
            level_limit,
        }
    }

    /// Whether the cap on leaderboards is reached.
    pub open spec fn limit_reached(self) -> bool {
        self.level_limit matches Some(limit) && self.level_count >= limit
    }

    /// The number of leaderboards asked for, after one more.
    pub open spec fn counted(self) -> nat {
        if self.level_count < u32::MAX {
            self.level_count + 1
        } else {
            self.level_count
        }
    }

    /// Inside a unit of work: the next candidate's leaderboard is asked
    /// for, unless the candidates are used up or the cap is reached; then
    /// the unit is committed.
    pub open spec fn in_unit(self) -> (RunState, ActionText) {
        if self.next < self.queue.len() && !self.limit_reached() {
            (
                RunState { awaiting: Awaited::Leaderboard, ..self },
                ActionText::FetchLeaderboard(self.queue[self.next as int]),
            )
        } else {
            (RunState { awaiting: Awaited::Commit, ..self }, ActionText::Commit)
        }
    }

    /// Whether another workshop page is to be asked for.
    pub open spec fn wants_page(self) -> bool {
        self.run_workshop && !self.limit_reached() && self.pages < MAX_PAGES
    }

    /// Between units of work: the next workshop page is asked for, in a
    /// fresh round of attempts, if one is wanted; else the run turns to the levels' sums, which are
    /// recomputed at once and then committed.
    pub open spec fn between_units(self, ledger: Ledger) -> (RunState, ActionText, Ledger) {
        let idle = RunState { queue: Seq::empty(), next: 0, ..self };
        if self.wants_page() {
            (
                RunState {
                    phase: Phase::WorkshopPaging,
                    awaiting: Awaited::Page,
                    pages: self.pages + 1,
                    ..idle
                },
                ActionText::FetchPage {
                    page: self.pages + 1,
                    address: LISTING_URL@ + decimal(self.pages + 1),
                    empties: 0,
                },
                ledger,
            )
        } else {
            (
                RunState { phase: Phase::FinalRecompute, awaiting: Awaited::Commit, ..idle },
                ActionText::Commit,
                ledger.recomputed(),
            )
        }
    }

    /// The run's answer to an event that it waits for: the state after,
    /// the action, and the ledger after.
    pub open spec fn after(self, event: Event, ledger: Ledger) -> (RunState, ActionText, Ledger) {
        match event {
            Event::Start => {
                if self.officials is Some && !self.limit_reached() {
                    let (state, action) = (RunState {
                        queue: self.officials->0,
                        next: 0,
                        ..self
                    }).in_unit();
                    (state, action, ledger)
                } else {
                    self.between_units(ledger)
                }
            },
            Event::Leaderboard(fetched) => {
                let candidate = self.queue[self.next as int];
                let (state, action) = (RunState {
                    level_count: self.counted(),
                    next: self.next + 1,
                    ..self
                }).in_unit();
                (
                    state,
                    action,
                    match fetched {
                        LeaderboardFetch::Found(rows) => ingested(
                            ledger,
                            candidate.leaderboard_name,
                            candidate.source_file_id,
                            candidate.display_name,
                            rows@,
                        ),
                        LeaderboardFetch::NotFound => ledger,
                    },
                )
            },
            Event::Page(page) => {
                match page {
                    Some(ids) => (
                        RunState { awaiting: Awaited::Details, ..self },
                        ActionText::FetchDetails {
                            body: details_request_body(ids.deep_view()),
                            policy: RetryPolicy {
                                retry_interval_ms: RETRY_INTERVAL_MS,
                                timeout_ms: DETAILS_TIMEOUT_MS,
                            },
                        },
                        ledger,
                    ),
                    None => (
                        RunState {
                            phase: Phase::FinalRecompute,
                            awaiting: Awaited::Commit,
                            queue: Seq::empty(),
                            next: 0,
                            ..self
                        },
                        ActionText::Commit,
                        ledger.recomputed(),
                    ),
                }
            },
            Event::Details(details) => {
                let (state, action) = (RunState {
                    queue: workshop_candidates(details@),
                    next: 0,
                    ..self
                }).in_unit();
                (state, action, ledger)
            },
            Event::Committed => {
                if self.phase == Phase::FinalRecompute {
                    (
                        RunState { phase: Phase::Done, awaiting: Awaited::Nothing, ..self },
                        ActionText::Finished,
                        ledger,
                    )
                } else {
                    self.between_units(ledger)
                }
            },
        }
    }

    /// What holds of every state that a run reaches.
    pub open spec fn consistent(self) -> bool {
        &&& self.next <= self.queue.len()
        &&& self.pages <= MAX_PAGES
        &&& self.level_count <= u32::MAX
        &&& self.awaiting == Awaited::Leaderboard ==> self.next < self.queue.len()
            && !self.limit_reached()
        &&& self.awaiting == Awaited::Start ==> self.phase == Phase::Officials
            && self.level_count == 0 && self.queue.len() == 0
        &&& self.awaiting == Awaited::Nothing <==> self.phase == Phase::Done
        &&& self.awaiting == Awaited::Page || self.awaiting == Awaited::Details
            ==> self.phase == Phase::WorkshopPaging
        &&& self.awaiting == Awaited::Leaderboard ==> self.phase == Phase::Officials
            || self.phase == Phase::WorkshopPaging
        &&& self.phase == Phase::Officials ==> self.pages == 0
    }
}

/// How far a run has come.
pub open spec fn progress(phase: Phase) -> nat {
    match phase {
        Phase::Officials => 0,
        Phase::WorkshopPaging => 1,
        Phase::FinalRecompute => 2,
        Phase::Done => 3,
    }
}

/// A run only moves forward: no stage is entered again once it is left.
/// It never asks for more leaderboards than the cap allows, nor for more
/// pages than `MAX_PAGES`, and it recomputes the levels' sums exactly
/// when it enters its last stage but one.
pub proof fn lemma_run_moves_forward(state: RunState, event: Event, ledger: Ledger)
    requires
        state.consistent(),
        state.awaiting == answers(event),
    ensures
        state.after(event, ledger).0.consistent(),
        progress(state.phase) <= progress(state.after(event, ledger).0.phase),
        state.level_count <= state.after(event, ledger).0.level_count,
        state.pages <= state.after(event, ledger).0.pages <= state.pages + 1,
        state.after(event, ledger).1 is FetchLeaderboard ==> !state.after(
            event,
            ledger,
        ).0.limit_reached(),
        state.after(event, ledger).0.phase == Phase::FinalRecompute && state.phase
            != Phase::FinalRecompute ==> state.after(event, ledger).2 == ledger.recomputed(),
        !(event is Leaderboard) && !(state.after(event, ledger).0.phase == Phase::FinalRecompute
            && state.phase != Phase::FinalRecompute) ==> state.after(event, ledger).2 == ledger,
        state.after(event, ledger).0.officials == state.officials,
        state.after(event, ledger).0.run_workshop == state.run_workshop,
        state.after(event, ledger).0.level_limit == state.level_limit,
{
}

/// A run that is done waits for nothing: no event moves it.
pub proof fn lemma_done_is_final(state: RunState, event: Event)
    requires
        state.consistent(),
        state.phase == Phase::Done,
    ensures
        state.awaiting != answers(event),
{
}

/// The characters of a list of candidates.
pub open spec fn candidates_text(list: Seq<LevelCandidate>) -> Seq<CandidateText> {
    Seq::new(list.len(), |i: int| list[i]@)
}

/// The characters of a list of candidates that may be absent.
pub open spec fn optional_candidates_text(list: Option<Vec<LevelCandidate>>) -> Option<
    Seq<CandidateText>,
> {
    match list {
        Some(list) => Some(candidates_text(list@)),
        None => None,
    }
}

/// The number that a cap stands for.
pub open spec fn limit_number(limit: Option<u32>) -> Option<nat> {
    match limit {
        Some(limit) => Some(limit as nat),
        None => None,
    }
}

fn copy_candidate(candidate: &LevelCandidate) -> (copy: LevelCandidate)
    ensures
        copy@ == candidate@,
{
    LevelCandidate {
        leaderboard_name: candidate.leaderboard_name.clone(),
        source_file_id: candidate.source_file_id.clone(),
        display_name: candidate.display_name.clone(),
    }
}

fn copy_candidates(list: &Vec<LevelCandidate>) -> (copy: Vec<LevelCandidate>)
    ensures
        candidates_text(copy@) == candidates_text(list@),
{
    let mut copy: Vec<LevelCandidate> = Vec::new();
    let mut i: usize = 0;
    while i < list.len()
        invariant
            i <= list@.len(),
            copy@.len() == i,
            forall|j: int| 0 <= j < i ==> (#[trigger] copy@[j])@ == list@[j]@,
        decreases list@.len() - i,
    {
        copy.push(copy_candidate(&list[i]));
        i = i + 1;
    }
    assert(candidates_text(copy@) =~= candidates_text(list@));
    copy
}

/// The candidates of a list of official levels, in its order.
pub fn official_levels(filenames: &Vec<String>) -> (candidates: Vec<LevelCandidate>)
    ensures
        candidates_text(candidates@) == official_candidates(filenames@),
{
    let mut candidates: Vec<LevelCandidate> = Vec::new();
    let mut i: usize = 0;
    while i < filenames.len()
        invariant
            i <= filenames@.len(),
            candidates@.len() == i,
            forall|j: int|
                0 <= j < i ==> (#[trigger] candidates@[j])@ == official_candidate_text(
                    filenames@[j]@,
                ),
        decreases filenames@.len() - i,
    {
        candidates.push(official_candidate(filenames[i].as_str()));
        i = i + 1;
    }
    assert(candidates_text(candidates@) =~= official_candidates(filenames@));
    candidates
}

/// The candidates among the details of a page, in their order.
pub fn workshop_levels(details: &Vec<SteamPublishedFileDetails>) -> (candidates: Vec<
    LevelCandidate,
>)
    ensures
        candidates_text(candidates@) == workshop_candidates(details@),
{
    let mut candidates: Vec<LevelCandidate> = Vec::new();
    let mut i: usize = 0;
    assert(details@.take(0) =~= Seq::empty());
    assert(candidates_text(candidates@) =~= Seq::empty());
    while i < details.len()
        invariant
            i <= details@.len(),
            candidates_text(candidates@) == workshop_candidates(details@.take(i as int)),
        decreases details@.len() - i,
    {
        let ghost before = candidates_text(candidates@);
        match workshop_candidate(&details[i]) {
            Some(candidate) => {
                candidates.push(candidate);
                assert(candidates_text(candidates@) =~= before.push(candidate@));
            },
            None => {},
        }
        proof {
            let next = details@.take(i as int + 1);
            assert(next.drop_last() =~= details@.take(i as int));
            assert(next.last() == details@[i as int]);
        }
        i = i + 1;
    }
    assert(details@.take(details@.len() as int) =~= details@);
    candidates
}

/// A run.
pub struct Orchestrator {
    phase: Phase,
    awaiting: Awaited,
    level_count: u32,
    getter: DistanceWorkshopGetter,
    queue: Vec<LevelCandidate>,
    next: usize,
    officials: Option<Vec<LevelCandidate>>,
    run_workshop: bool,
    level_limit: Option<u32>,
}

impl View for Orchestrator {
    type V = RunState;

    closed spec fn view(&self) -> RunState {
        RunState {
            phase: self.phase,
            awaiting: self.awaiting,
            level_count: self.level_count as nat,
            pages: self.getter.page() as nat,
            queue: candidates_text(self.queue@),
            next: self.next as nat,
            officials: optional_candidates_text(self.officials),
            run_workshop: self.run_workshop,
            level_limit: limit_number(self.level_limit),
        }
    }
}

impl Orchestrator {
    /// The run has come here by its own steps.
    pub closed spec fn wf(&self) -> bool {
        self@.consistent()
    }

    /// A run that has not begun: over the official levels whose base file
    /// names are given, if any are; over the workshop, if `run_workshop`;
    /// and over `level_limit` leaderboards at most, if there is a cap.
    pub fn new(officials: Option<&Vec<String>>, run_workshop: bool, level_limit: Option<u32>) -> (run:
        Orchestrator)
        ensures
            run.wf(),
            run@ == RunState::initial(
                match officials {
                    Some(filenames) => Some(official_candidates(filenames@)),
                    None => None,
                },
                run_workshop,
                limit_number(level_limit),
            ),
    {
        let candidates: Option<Vec<LevelCandidate>> = match officials {
            Some(filenames) => Some(official_levels(filenames)),
            None => None,
        };
        let run = Orchestrator {
            phase: Phase::Officials,
            awaiting: Awaited::Start,
            level_count: 0,
            getter: for_distance_workshop(),
            queue: Vec::new(),
            next: 0,
            officials: candidates,
            run_workshop,
            level_limit,
        };
        assert(run@.queue =~= Seq::empty());
        run
    }

    /// The stage that the run is in.
    pub fn phase(&self) -> (phase: Phase)
        ensures
            phase == self@.phase,
    {
        self.phase
    }

    /// What the run waits for.
    pub fn awaiting(&self) -> (awaiting: Awaited)
        ensures
            awaiting == self@.awaiting,
    {
        self.awaiting
    }

    /// The number of leaderboards asked for so far.
    pub fn level_count(&self) -> (count: u32)
        ensures
            count == self@.level_count,
    {
        self.level_count
    }

    /// The number of workshop pages asked for so far.
    pub fn pages(&self) -> (pages: u32)
        ensures
            pages == self@.pages,
    {
        self.getter.page_number()
    }

    fn limit_reached(&self) -> (reached: bool)
        ensures
            reached == self@.limit_reached(),
    {
        match self.level_limit {
            Some(limit) => self.level_count >= limit,
            None => false,
        }
    }

    fn in_unit(&mut self) -> (action: Action)
        requires
            old(self).next <= old(self).queue@.len(),
        ensures
            (final(self)@, action@) == old(self)@.in_unit(),
    {
        if self.next < self.queue.len() && !self.limit_reached() {
            self.awaiting = Awaited::Leaderboard;
            Action::FetchLeaderboard(copy_candidate(&self.queue[self.next]))
        } else {
            self.awaiting = Awaited::Commit;
            Action::Commit
        }
    }

    fn between_units(&mut self, store: &mut ScoreStore) -> (action: Action)
        requires
            old(self)@.pages <= MAX_PAGES,
            old(store).wf(),
        ensures
            final(store).wf(),
            (final(self)@, action@, final(store)@) == old(self)@.between_units(old(store)@),
    {
        self.queue = Vec::new();
        self.next = 0;
        assert(self@.queue =~= Seq::empty());
        if self.run_workshop && !self.limit_reached() && self.getter.page_number() < MAX_PAGES {
            self.phase = Phase::WorkshopPaging;
            self.awaiting = Awaited::Page;
            let request: WorkshopPageRequest = self.getter.next_getter_page();
            Action::FetchPage(request)
        } else {
            self.phase = Phase::FinalRecompute;
            self.awaiting = Awaited::Commit;
            store.recompute_all_level_sums();
            Action::Commit
        }
    }

    /// Takes what the last action brought and answers with the next
    /// action.  An event that the run does not wait for is answered with
    /// `None`, and changes neither the run nor the store.
    pub fn step(&mut self, store: &mut ScoreStore, event: Event) -> (action: Option<Action>)
        requires
            old(self).wf(),
            old(store).wf(),
        ensures
            final(self).wf(),
            final(store).wf(),
            action is Some <==> old(self)@.awaiting == answers(event),
            action is None ==> final(self)@ == old(self)@ && final(store)@ == old(store)@,
            action matches Some(a) ==> (final(self)@, a@, final(store)@) == old(self)@.after(
                event,
                old(store)@,
            ),
    {
        proof {
            if self@.awaiting == answers(event) {
                lemma_run_moves_forward(self@, event, store@);
            }
        }
        match event {
            Event::Start => {
                if self.awaiting != Awaited::Start {
                    return None;
                }
                let begin: bool = self.officials.is_some() && !self.limit_reached();
                if begin {
                    match &self.officials {
                        Some(list) => {
                            self.queue = copy_candidates(list);
                        },
                        None => {},
                    }
                    self.next = 0;
                    Some(self.in_unit())
                } else {
                    Some(self.between_units(store))
                }
            },
            Event::Leaderboard(fetched) => {
                if self.awaiting != Awaited::Leaderboard {
                    return None;
                }
                let queued: usize = self.queue.len();
                assert(self.next < queued);
                let candidate = &self.queue[self.next];
                let _ = update_certain_leaderboard(
                    store,
                    candidate.leaderboard_name.as_str(),
                    candidate.source_file_id.as_str(),
                    candidate.display_name.as_str(),
                    &fetched,
                );
                if self.level_count < u32::MAX {
                    self.level_count = self.level_count + 1;
                }
                self.next = self.next + 1;
                Some(self.in_unit())
            },
            Event::Page(page) => {
                if self.awaiting != Awaited::Page {
                    return None;
                }
                match page {
                    Some(ids) => {
                        self.awaiting = Awaited::Details;
                        Some(Action::FetchDetails(get_level_details(&ids, DETAILS_TIMEOUT_MS)))
                    },
                    None => {
                        self.queue = Vec::new();
                        self.next = 0;
                        assert(self@.queue =~= Seq::empty());
                        self.phase = Phase::FinalRecompute;
                        self.awaiting = Awaited::Commit;
                        store.recompute_all_level_sums();
                        Some(Action::Commit)
                    },
                }
            },
            Event::Details(details) => {
                if self.awaiting != Awaited::Details {
                    return None;
                }
                self.queue = workshop_levels(&details);
                self.next = 0;
                Some(self.in_unit())
            },
            Event::Committed => {
                if self.awaiting != Awaited::Commit {
                    return None;
                }
                if self.phase == Phase::FinalRecompute {
                    self.phase = Phase::Done;
                    self.awaiting = Awaited::Nothing;
                    Some(Action::Finished)
                } else {
                    Some(self.between_units(store))
                }
            },
        }
    }
}

} // verus!
