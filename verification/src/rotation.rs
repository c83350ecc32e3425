//! When an account gives way to another, and how the change is confirmed or taken back.
use crate::accounts;
use crate::accounts::identity;
use crate::accounts::valid_name;
use crate::clock;
use crate::clock::saturating_second;
use crate::json;
use crate::json::text_json;
use crate::json::Json;
use crate::json::Quantity;
use crate::json::Tree;
use crate::quota;
use crate::quota::eligible;
use crate::quota::rank_of;
use crate::quota::remaining;
use crate::quota::TWO;
use crate::table;
use crate::table::Table;
use crate::text;
use crate::text::first_chars;
use crate::text::list_contains;
use crate::text::same;
use vstd::prelude::*;

verus! {

broadcast use {
    vstd::seq_lib::group_seq_properties,
    vstd::map::group_map_axioms,
    vstd::set::group_set_axioms,
};

/// How many accounts can have a priority, and how many are waited out.
pub const MAX_ACCOUNTS: usize = 64;

/// How many changes are remembered.
pub const MAX_EVENTS: usize = 50;

/// How much of an error is shown, in characters.
pub const MAX_ERROR: usize = 512;

/// At most the first characters of an error.
pub fn bounded_error(error: &str) -> (r: String)
    ensures
        r@ == (if error@.len() > MAX_ERROR {
            error@.take(MAX_ERROR as int)
        } else {
            error@
        }),
{
    first_chars(error, MAX_ERROR)
}

/// What is kept between runs.
#[derive(Debug)]
pub struct Saved {
    pub enabled: bool,
    pub priority: Vec<String>,
    /// The last changes, the latest first.
    pub events: Vec<Json>,
    /// Accounts that a change to failed, with the digest of their credentials and the second
    /// until which they are waited out.
    pub backoff: Table<String, (String, u64)>,
}

/// The model of a `Saved`.
pub struct Settings {
    pub enabled: bool,
    pub priority: Seq<Seq<char>>,
    pub events: Seq<Tree>,
    pub backoff: Map<Seq<char>, (Seq<char>, u64)>,
}

pub open spec fn backoff_view(m: Map<Seq<char>, (String, u64)>) -> Map<
    Seq<char>,
    (Seq<char>, u64),
> {
    m.map_values(|e: (String, u64)| (e.0@, e.1))
}

impl View for Saved {
    type V = Settings;

    open spec fn view(&self) -> Settings {
        Settings {
            enabled: self.enabled,
            priority: text::texts(self.priority@),
            events: json::trees_of(self.events@),
            backoff: backoff_view(self.backoff@),
        }
    }
}

/// What the state of the queue calls for.
#[derive(Clone, Copy, Debug, PartialEq, Eq, Structural)]
pub enum Gate {
    /// Nothing to do.
    Idle,
    /// The quota of the account in use is to be looked at.
    Check(Watch),
}

/// What is known of the account in use.
#[derive(Clone, Copy, Debug, PartialEq, Eq, Structural)]
pub struct Watch {
    pub traffic: u64,
    /// The account was turned away for good.
    pub hard_block: bool,
    /// It was turned away because of its credentials.
    pub auth_invalid: bool,
    /// Requests are held back until an account is found.
    pub hold: bool,
}

pub open spec fn traffic_of(q: Tree) -> u64 {
    match q.at("traffic_version"@).number() {
        Some(n) => n,
        None => 0,
    }
}

pub open spec fn watch_of(q: Tree) -> Watch {
    let auth_invalid = q.says("account_unavailable_reason"@, "auth_invalid"@);
    Watch {
        traffic: traffic_of(q),
        hard_block: auth_invalid || q.says("account_unavailable_reason"@, "quota_exhausted"@),
        auth_invalid,
        hold: q.is("rotation_hold"@, true),
    }
}

/// Whether the account in use is looked at: not while a change could not be made, nor where
/// nothing happened since the last time.
pub open spec fn gate_of(enabled: bool, q: Tree, available: bool, last_traffic: u64) -> Gate {
    let w = watch_of(q);
    if !enabled || q.is("paused"@, true) || q.is("outcome_unknown"@, true) || !available {
        Gate::Idle
    } else if w.traffic == last_traffic && q.at("running"@).number() == Some(0u64) && q.at(
        "pending"@,
    ).number() == Some(0u64) && !w.hold && !w.hard_block {
        Gate::Idle
    } else {
        Gate::Check(w)
    }
}

/// Whether the account in use is to be looked at, by the state of the queue.
pub fn gate(enabled: bool, q: &Json, available: bool, last_traffic: u64) -> (r: Gate)
    ensures
        r == gate_of(enabled, q@, available, last_traffic),
{
    if !enabled || q.is("paused", true) || q.is("outcome_unknown", true) || !available {
        return Gate::Idle;
    }
    let traffic: u64 = match q.number_at("traffic_version") {
        Some(n) => n,
        None => 0,
    };
    let auth_invalid = q.says("account_unavailable_reason", "auth_invalid");
    let hard_block = auth_invalid || q.says("account_unavailable_reason", "quota_exhausted");
    let hold = q.is("rotation_hold", true);
    let still = match (q.number_at("running"), q.number_at("pending")) {
        (Some(running), Some(pending)) => running == 0 && pending == 0,
        _ => false,
    };
    if traffic == last_traffic && still && !hold && !hard_block {
        return Gate::Idle;
    }
    Gate::Check(Watch { traffic, hard_block, auth_invalid, hold })
}

/// What the quota of the account in use calls for.
#[derive(Clone, Copy, Debug, PartialEq, Eq, Structural)]
pub enum Step {
    /// The account has recovered and its requests go on.
    Resume,
    /// The account stays in use.
    Monitor,
    /// The quota could not be had.
    Report,
    /// Another account is looked for.
    Rotate,
}

/// What the quota of the account in use calls for; where it could not be had, whether the
/// credentials are to blame.
pub open spec fn step_of(w: Watch, quota: Result<Tree, bool>) -> Step {
    let low = w.hard_block || w.hold || match quota {
        Ok(value) => quota::at_most(quota::remaining_of(value), TWO),
        Err(auth_invalid) => auth_invalid,
    };
    if w.hold && (quota matches Ok(value) && quota::eligible_quota(value)) {
        Step::Resume
    } else if low {
        Step::Rotate
    } else if quota is Err {
        Step::Report
    } else {
        Step::Monitor
    }
}

pub open spec fn quota_view(quota: Result<&Json, bool>) -> Result<Tree, bool> {
    match quota {
        Ok(j) => Ok(j@),
        Err(e) => Err(e),
    }
}

/// What the quota of the account in use calls for.
pub fn step(watch: Watch, quota: Result<&Json, bool>) -> (r: Step)
    ensures
        r == step_of(watch, quota_view(quota)),
{
    match quota {
        Ok(value) => {
            if watch.hold && eligible(value) {
                return Step::Resume;
            }
            let low = match remaining(value) {
                Some(bits) => rank_of(bits) <= rank_of(TWO),
                None => false,
            };
            if watch.hard_block || watch.hold || low {
                Step::Rotate
            } else {
                Step::Monitor
            }
        },
        Err(auth_invalid) => if watch.hard_block || watch.hold || auth_invalid {
            Step::Rotate
        } else {
            Step::Report
        },
    }
}

/// The accounts in the order in which they are tried: those with a priority, then the others.
pub open spec fn tried(priority: Seq<Seq<char>>, names: Seq<Seq<char>>) -> Seq<Seq<char>>
    decreases names.len(),
{
    if names.len() == 0 {
        priority
    } else {
        let rest = tried(priority, names.drop_last());
        if rest.contains(names.last()) {
            rest
        } else {
            rest.push(names.last())
        }
    }
}

/// The accounts in the order in which they are tried.
pub fn order(priority: &Vec<String>, names: &Vec<String>) -> (r: Vec<String>)
    ensures
        text::texts(r@) == tried(text::texts(priority@), text::texts(names@)),
{
    let ghost first = text::texts(priority@);
    let ghost all = text::texts(names@);
    let mut out: Vec<String> = Vec::new();
    let mut i: usize = 0;
    assert(text::texts(out@) =~= first.take(0));
    while i < priority.len()
        invariant
            i <= priority@.len(),
            first == text::texts(priority@),
            text::texts(out@) == first.take(i as int),
        decreases priority@.len() - i,
    {
        let ghost before = text::texts(out@);
        out.push(priority[i].clone());
        assert(text::texts(out@) =~= before.push(first[i as int]));
        assert(first.take(i + 1) =~= first.take(i as int).push(first[i as int]));
        i += 1;
    }
    assert(first.take(first.len() as int) == first);
    let mut k: usize = 0;
    assert(all.take(0) =~= Seq::empty());
    while k < names.len()
        invariant
            k <= names@.len(),
            all == text::texts(names@),
            text::texts(out@) == tried(first, all.take(k as int)),
        decreases names@.len() - k,
    {
        assert(all.take(k + 1).drop_last() == all.take(k as int));
        if !list_contains(&out, &names[k]) {
            let ghost before = text::texts(out@);
            out.push(names[k].clone());
            assert(text::texts(out@) =~= before.push(all[k as int]));
        }
        k += 1;
    }
    assert(all.take(all.len() as int) == all);
    out
}

/// What is done with an account that is tried.
#[derive(Clone, Copy, Debug, PartialEq, Eq, Structural)]
pub enum Choice {
    Skip,
    /// It takes over.
    Activate,
    /// Its quota is asked for; it takes over where that allows it.
    Query,
}

/// A search for an account that can take over.
#[derive(Clone, Copy, Debug, PartialEq, Eq, Structural)]
pub struct Scan {
    pub now: u64,
    /// Before this second no account's quota is asked for.
    pub next_scan: u64,
    /// When the next account may be able to take over.
    pub next_check: u64,
}

/// When an account's quota may be asked for.
pub open spec fn due_of(status: Tree) -> u64 {
    match status.at("next_check_at"@).number() {
        Some(at) => at,
        None => u64::MAX,
    }
}

/// Whether an account is passed over at once: it is the one in use, it is waited out, or its
/// credentials are invalid.
pub open spec fn passed_over(
    candidate: Tree,
    current: Tree,
    key: Seq<char>,
    waited: Option<(Seq<char>, u64)>,
    status: Tree,
    now: u64,
) -> bool {
    ||| accounts::same_account(candidate, current)
    ||| (waited matches Some((k, until)) && k == key && until > now)
    ||| status.is("auth_invalid"@, true)
}

/// What is done with an account, and the search after it.
pub open spec fn considered(
    s: Scan,
    candidate: Tree,
    current: Tree,
    key: Seq<char>,
    waited: Option<(Seq<char>, u64)>,
    status: Tree,
) -> (Choice, Scan) {
    if passed_over(candidate, current, key, waited, status, s.now) {
        (Choice::Skip, s)
    } else {
        let due = due_of(status);
        let possible = if due >= s.next_scan {
            due
        } else {
            s.next_scan
        };
        let next = Scan {
            next_check: if possible < s.next_check {
                possible
            } else {
                s.next_check
            },
            ..s
        };
        if due > s.now {
            if status.at("error"@) is Null && quota::eligible_quota(status.at("quota"@)) {
                (Choice::Activate, next)
            } else {
                (Choice::Skip, next)
            }
        } else if s.now < s.next_scan {
            (Choice::Skip, next)
        } else {
            (Choice::Query, Scan { next_scan: clock::later_second(s.now, 30), ..next })
        }
    }
}

impl Scan {
    /// Starts a search.
    pub fn new(now: u64, next_scan: u64) -> (r: Scan)
        ensures
            r == begun(now, next_scan),
    {
        Scan { now, next_scan, next_check: saturating_second(now, 900) }
    }

    /// What is done with an account, by what is known of its quota.
    pub fn consider(
        &mut self,
        candidate: &Json,
        current: &Json,
        key: &str,
        waited: Option<&(String, u64)>,
        status: &Json,
    ) -> (r: Choice)
        ensures
            (r, *final(self)) == considered(
                *old(self),
                candidate@,
                current@,
                key@,
                match waited {
                    Some(w) => Some((w.0@, w.1)),
                    None => None,
                },
                status@,
            ),
    {
        if same(&identity(candidate), &identity(current)) {
            return Choice::Skip;
        }
        if let Some(entry) = waited {
            if same(&entry.0, key) && entry.1 > self.now {
                return Choice::Skip;
            }
        }
        if status.is("auth_invalid", true) {
            return Choice::Skip;
        }
        let due: u64 = match status.number_at("next_check_at") {
            Some(at) => at,
            None => u64::MAX,
        };
        let possible = if due >= self.next_scan {
            due
        } else {
            self.next_scan
        };
        if possible < self.next_check {
            self.next_check = possible;
        }
        if due > self.now {
            let able = match status.get("quota") {
                Some(value) => eligible(value),
                None => {
                    assert(!quota::eligible_quota(Tree::Null));
                    false
                },
            };
            return if status.lacks("error") && able {
                Choice::Activate
            } else {
                Choice::Skip
            };
        }
        if self.now < self.next_scan {
            return Choice::Skip;
        }
        self.next_scan = saturating_second(self.now, 30);
        Choice::Query
    }

    /// What is shown when no account could take over.
    pub fn waiting(&self) -> (r: Json)
        ensures
            r@ == waiting_tree(*self),
    {
        let soon = saturating_second(self.now, 30);
        let mut r = Json::object();
        r.set("phase".to_owned(), Json::Text("waiting".to_owned()));
        r.set("message".to_owned(), Json::Text("没有已确认可用的备用账号".to_owned()));
        r.set(
            "next_check_at".to_owned(),
            Json::unsigned(
                if self.next_check >= soon {
                    self.next_check
                } else {
                    soon
                },
            ),
        );
        r
    }
}

pub open spec fn waiting_tree(s: Scan) -> Tree {
    let soon = clock::later_second(s.now, 30);
    Tree::Object(
        Map::empty().insert("phase"@, Tree::Text("waiting"@)).insert(
            "message"@,
            Tree::Text("没有已确认可用的备用账号"@),
        ).insert(
            "next_check_at"@,
            Tree::Number(
                Quantity::Unsigned(
                    if s.next_check >= soon {
                        s.next_check
                    } else {
                        soon
                    },
                ),
            ),
        ),
    )
}

/// What is remembered of a change.
pub open spec fn event_tree(
    from: Seq<char>,
    to: Seq<char>,
    now: u64,
    error: Option<Seq<char>>,
) -> Tree {
    Tree::Object(
        Map::empty().insert("at"@, Tree::Number(Quantity::Unsigned(now))).insert(
            "from"@,
            Tree::Text(from),
        ).insert("to"@, Tree::Text(to)).insert("ok"@, Tree::Bool(error is None)).insert(
            "reason"@,
            Tree::Text("额度 ≤2% 或账号不可用"@),
        ).insert("error"@, json::optional_text(error)),
    )
}

/// The latest of some events.
pub open spec fn latest(events: Seq<Tree>) -> Seq<Tree> {
    if events.len() > MAX_EVENTS {
        events.take(MAX_EVENTS as int)
    } else {
        events
    }
}

/// Which accounts are waited out after a change.
pub open spec fn backoff_after(
    m: Map<Seq<char>, (Seq<char>, u64)>,
    to: Seq<char>,
    key: Seq<char>,
    now: u64,
    failed: bool,
) -> Map<Seq<char>, (Seq<char>, u64)> {
    if failed {
        let kept = if m.dom().len() >= MAX_ACCOUNTS {
            Map::empty()
        } else {
            m
        };
        kept.insert(to, (key, clock::later_second(now, 900)))
    } else {
        m.remove(to)
    }
}

fn bounded_option(error: Option<&str>) -> (r: Option<String>)
    ensures
        text::text_option(r) == bounded(
            match error {
                Some(s) => Some(s@),
                None => None,
            },
        ),
{
    match error {
        Some(s) => Some(bounded_error(s)),
        None => None,
    }
}

pub open spec fn bounded(error: Option<Seq<char>>) -> Option<Seq<char>> {
    match error {
        Some(s) => Some(
            if s.len() > MAX_ERROR {
                s.take(MAX_ERROR as int)
            } else {
                s
            },
        ),
        None => None,
    }
}

/// Notes that an account is waited out after a change to it failed, or no longer after one.
fn wait_out(
    backoff: &mut Table<String, (String, u64)>,
    to: &String,
    key: String,
    now: u64,
    failed: bool,
)
    requires
        old(backoff).wf(),
    ensures
        final(backoff).wf(),
        backoff_view(final(backoff)@) == backoff_after(
            backoff_view(old(backoff)@),
            to@,
            key@,
            now,
            failed,
        ),
{
    let ghost f = |e: (String, u64)| (e.0@, e.1);
    assert(backoff_view(backoff@).dom() =~= backoff@.dom());
    if failed {
        if backoff.len() >= MAX_ACCOUNTS {
            *backoff = Table::new();
            assert(backoff_view(backoff@) =~= Map::empty());
        }
        let entry = (key, saturating_second(now, 900));
        proof {
            table::lemma_mapped_insert(backoff@, f, to@, entry);
        }
        backoff.insert(to.clone(), entry);
    } else {
        proof {
            table::lemma_mapped_remove(backoff@, f, to@);
        }
        let _ = backoff.remove(to);
    }
}

/// What is remembered of a change.
fn change_json(from: &str, to: &String, now: u64, error: Option<&str>) -> (r: Json)
    ensures
        r@ == event_tree(
            from@,
            to@,
            now,
            bounded(
                match error {
                    Some(s) => Some(s@),
                    None => None,
                },
            ),
        ),
{
    let mut event = Json::object();
    event.set("at".to_owned(), Json::unsigned(now));
    event.set("from".to_owned(), Json::Text(from.to_owned()));
    event.set("to".to_owned(), Json::Text(to.clone()));
    event.set("ok".to_owned(), Json::Bool(error.is_none()));
    event.set("reason".to_owned(), Json::Text("额度 ≤2% 或账号不可用".to_owned()));
    event.set("error".to_owned(), text_json(bounded_option(error)));
    event
}

/// Puts an event before the others, of which only the latest are kept.
fn add_latest(events: &mut Vec<Json>, event: Json)
    ensures
        json::trees_of(final(events)@) == latest(seq![event@] + json::trees_of(old(events)@)),
{
    let ghost before = json::trees_of(events@);
    proof {
        json::lemma_trees_of(events@);
    }
    events.insert(0, event);
    proof {
        json::lemma_trees_of(events@);
        assert(json::trees_of(events@) =~= seq![event@] + before);
    }
    if events.len() > MAX_EVENTS {
        let ghost longer = events@;
        events.truncate(MAX_EVENTS);
        proof {
            json::lemma_trees_of(events@);
            json::lemma_trees_of(longer);
            assert(json::trees_of(events@) =~= latest(json::trees_of(longer)));
        }
    }
}

/// What is kept after a change of accounts, or after it failed.
pub open spec fn recorded(
    s: Settings,
    from: Seq<char>,
    to: Seq<char>,
    key: Seq<char>,
    now: u64,
    error: Option<Seq<char>>,
) -> Settings {
    Settings {
        events: latest(seq![event_tree(from, to, now, bounded(error))] + s.events),
        backoff: backoff_after(s.backoff, to, key, now, error is Some),
        ..s
    }
}

/// Whether what an earlier run kept is within bounds.
pub open spec fn is_within_bounds(s: Settings) -> bool {
    s.priority.len() <= MAX_ACCOUNTS && s.events.len() <= MAX_EVENTS && s.backoff.dom().len()
        <= MAX_ACCOUNTS
}

impl Saved {
    pub open spec fn wf(&self) -> bool {
        self.backoff.wf()
    }

    /// Whether what an earlier run kept is within bounds.
    pub fn is_bounded(&self) -> (r: bool)
        requires
            self.wf(),
        ensures
            r == is_within_bounds(self@),
    {
        proof {
            json::lemma_trees_of(self.events@);
            assert(self@.backoff.dom() =~= self.backoff@.dom());
        }
        self.priority.len() <= MAX_ACCOUNTS && self.events.len() <= MAX_EVENTS
            && self.backoff.len() <= MAX_ACCOUNTS
    }

    /// Notes a change of accounts, or that it failed.
    pub fn record(&mut self, from: &str, to: &String, key: String, now: u64, error: Option<&str>)
        requires
            old(self).wf(),
        ensures
            final(self).wf(),
            final(self)@ == recorded(
                old(self)@,
                from@,
                to@,
                key@,
                now,
                match error {
                    Some(s) => Some(s@),
                    None => None,
                },
            ),
    {
        wait_out(&mut self.backoff, to, key, now, error.is_some());
        add_latest(&mut self.events, change_json(from, to, now, error));
    }
}

/// Whether a list of accounts can be given a priority.
pub open spec fn is_priority(list: Seq<Seq<char>>) -> bool {
    list.len() <= MAX_ACCOUNTS && forall|i: int|
        0 <= i < list.len() ==> accounts::is_profile_name(#[trigger] list[i])
}

/// Whether a list of accounts can be given a priority.
pub fn valid_priority(priority: &Vec<String>) -> (r: bool)
    ensures
        r == is_priority(text::texts(priority@)),
{
    let ghost all = text::texts(priority@);
    if priority.len() > MAX_ACCOUNTS {
        return false;
    }
    let mut i: usize = 0;
    while i < priority.len()
        invariant
            i <= priority@.len(),
            all == text::texts(priority@),
            forall|k: int| 0 <= k < i ==> accounts::is_profile_name(#[trigger] all[k]),
        decreases priority@.len() - i,
    {
        assert(all[i as int] == priority@[i as int]@);
        if !valid_name(&priority[i]) {
            return false;
        }
        i += 1;
    }
    true
}

/// How a change of credentials ends.
#[derive(Debug)]
pub enum Settlement {
    Changed,
    /// The credentials from before are written back and confirmed.
    Restore(Json),
    /// There were none before: the new ones are removed, and an operator is needed.
    Discard,
}

/// How a change of credentials ends, by whether it was made and confirmed.
pub fn settle(confirmed: bool, previous: Option<Json>) -> (r: Settlement)
    ensures
        confirmed ==> r is Changed,
        !confirmed ==> match previous {
            Some(old) => r matches Settlement::Restore(j) && j@ == old@,
            None => r is Discard,
        },
{
    if confirmed {
        Settlement::Changed
    } else {
        match previous {
            Some(old) => Settlement::Restore(old),
            None => Settlement::Discard,
        }
    }
}

/// The token with which the account service is asked.
pub open spec fn token_in(auth: Tree) -> Option<Seq<char>> {
    match auth.at("tokens"@).field("access_token"@) {
        Some(token) => token.text(),
        None => auth.text_at("OPENAI_API_KEY"@),
    }
}

/// What is known of whether the thread manager has loaded credentials.
#[derive(Clone, Copy, Debug, PartialEq, Eq, Structural)]
pub enum Confirmation {
    Loaded,
    /// Not yet: it is asked again a little later.
    Pending,
    /// The file holds those of another account.
    Replaced,
    /// The file holds no token.
    NoToken,
}

/// Whether the thread manager has loaded the credentials in a file, by its status.
pub open spec fn confirmation(account: Seq<char>, disk: Tree, status: Tree) -> Confirmation {
    if accounts::identity_of(disk) != account {
        Confirmation::Replaced
    } else if token_in(disk) is None {
        Confirmation::NoToken
    } else if status.text_at("authToken"@) == token_in(disk) {
        Confirmation::Loaded
    } else {
        Confirmation::Pending
    }
}

/// Whether the thread manager has loaded the credentials in a file, by its status.
pub fn confirm(account: &str, disk: &Json, status: &Json) -> (r: Confirmation)
    ensures
        r == confirmation(account@, disk@, status@),
{
    if !same(&identity(disk), account) {
        return Confirmation::Replaced;
    }
    let field = match disk.get("tokens") {
        Some(tokens) => tokens.get("access_token"),
        None => None,
    };
    let token = match field {
        Some(token) => token.as_text(),
        None => disk.text_at("OPENAI_API_KEY"),
    };
    match token {
        None => Confirmation::NoToken,
        Some(token) => if status.says("authToken", token) {
            Confirmation::Loaded
        } else {
            Confirmation::Pending
        },
    }
}

/// Whether the account that the thread manager reports is that of the credentials.
pub open spec fn is_account_loaded(disk: Tree, limits: Tree) -> bool {
    disk.at("tokens"@).text_at("account_id"@) matches Some(id) ==> limits.says("accountId"@, id)
}

/// The credentials of a saved account: those in use, where they are of the same account.
pub open spec fn current_credentials(saved: Tree, active: Option<Tree>) -> Tree {
    match active {
        Some(a) => if accounts::same_account(a, saved) {
            a
        } else {
            saved
        },
        None => saved,
    }
}

/// A search at its start.
pub open spec fn begun(now: u64, next_scan: u64) -> Scan {
    Scan { now, next_scan, next_check: clock::later_second(now, 900) }
}

/// Whether the account that the thread manager reports is that of the credentials; where these
/// name none there is nothing to compare.
pub fn account_loaded(disk: &Json, limits: &Json) -> (r: bool)
    ensures
        r == is_account_loaded(disk@, limits@),
{
    let id = match disk.get("tokens") {
        Some(tokens) => tokens.text_at("account_id"),
        None => None,
    };
    match id {
        Some(id) => limits.says("accountId", id),
        None => true,
    }
}

/// The credentials of a saved account: those in use, where they are of the same account, for
/// they may have been refreshed.
pub fn credentials(saved: &Json, active: Option<&Json>) -> (r: Json)
    ensures
        r@ == current_credentials(
            saved@,
            match active {
                Some(a) => Some(a@),
                None => None,
            },
        ),
{
    match active {
        Some(active) => if same(&identity(active), &identity(saved)) {
            active.copy()
        } else {
            saved.copy()
        },
        None => saved.copy(),
    }
}

/// The account in use never takes over from itself, nor does one that failed a short time ago
/// with the same credentials.
pub proof fn law_no_change_to_the_same(
    s: Scan,
    candidate: Tree,
    current: Tree,
    key: Seq<char>,
    waited: Option<(Seq<char>, u64)>,
    status: Tree,
)
    requires
        accounts::same_account(candidate, current) || (waited matches Some((k, until)) && k == key
            && until > s.now),
    ensures
        considered(s, candidate, current, key, waited, status) == (Choice::Skip, s),
{
}

/// An account takes over without another query only on a quota that is still fresh and leaves
/// more than five percent.
pub proof fn law_takes_over_only_with_quota(
    s: Scan,
    candidate: Tree,
    current: Tree,
    key: Seq<char>,
    waited: Option<(Seq<char>, u64)>,
    status: Tree,
)
    requires
        considered(s, candidate, current, key, waited, status).0 == Choice::Activate,
    ensures
        due_of(status) > s.now,
        quota::eligible_quota(status.at("quota"@)),
        !status.is("auth_invalid"@, true),
{
}

/// Two queries in a search are at least thirty seconds apart.
pub proof fn law_queries_are_spaced(
    s: Scan,
    candidate: Tree,
    current: Tree,
    key: Seq<char>,
    waited: Option<(Seq<char>, u64)>,
    status: Tree,
)
    requires
        considered(s, candidate, current, key, waited, status).0 == Choice::Query,
        s.now <= u64::MAX - 30,
    ensures
        s.next_scan <= s.now,
        considered(s, candidate, current, key, waited, status).1.next_scan == s.now + 30,
{
}

/// The account in use is looked at exactly where changes are enabled and could be made, the queue
/// is neither paused nor unsure what still runs, and something calls for it: requests since the
/// last time, ones that run or wait or are held back, or an account that was turned away.
pub proof fn law_when_the_account_is_looked_at(
    enabled: bool,
    q: Tree,
    available: bool,
    last_traffic: u64,
)
    ensures
        ({
            let reason = q.at("account_unavailable_reason"@);
            let refused = reason == Tree::Text("auth_invalid"@);
            let used_up = reason == Tree::Text("quota_exhausted"@);
            let held = q.at("rotation_hold"@) == Tree::Bool(true);
            let traffic = match q.at("traffic_version"@).number() {
                Some(n) => n,
                None => 0,
            };
            let possible = enabled && available && q.at("paused"@) != Tree::Bool(true) && q.at(
                "outcome_unknown"@,
            ) != Tree::Bool(true);
            let called_for = traffic != last_traffic || q.at("running"@).number() != Some(0u64)
                || q.at("pending"@).number() != Some(0u64) || held || refused || used_up;
            match gate_of(enabled, q, available, last_traffic) {
                Gate::Idle => !(possible && called_for),
                Gate::Check(w) => {
                    &&& possible && called_for
                    &&& w.traffic == traffic
                    &&& w.hold == held
                    &&& w.auth_invalid == refused
                    &&& w.hard_block == (refused || used_up)
                },
            }
        }),
{
}

/// Requests that are held back go on where the account can take over from itself, with more than
/// five percent left. Otherwise another account is looked for where the one in use was turned
/// away, requests are held back, two percent or less is left, or its credentials are not valid. A
/// quota that could not be had otherwise is only reported.
pub proof fn law_what_a_quota_calls_for(w: Watch, quota: Result<Tree, bool>)
    ensures
        ({
            let step = step_of(w, quota);
            let recovered = w.hold && quota is Ok && quota::eligible_quota(quota->Ok_0);
            let left = quota::remaining_of(quota->Ok_0);
            let low = (quota is Ok && left is Some && quota::rank(left->0)
                <= 0x4000_0000_0000_0000) || (quota is Err && quota->Err_0);
            &&& step == Step::Resume <==> recovered
            &&& step == Step::Rotate <==> !recovered && (w.hard_block || w.hold || low)
            &&& step == Step::Report <==> quota is Err && !w.hard_block && !w.hold && !low
            &&& step == Step::Monitor <==> quota is Ok && !recovered && !w.hard_block && !w.hold
                && !low
        }),
{
}

/// Accounts are tried by their priority first, in its order, and then the others, each once, in
/// theirs.
pub proof fn law_order_of_accounts(priority: Seq<Seq<char>>, names: Seq<Seq<char>>)
    ensures
        priority.is_prefix_of(tried(priority, names)),
        forall|n: Seq<char>| #[trigger]
            tried(priority, names).contains(n) <==> priority.contains(n) || names.contains(n),
        forall|i: int|
            priority.len() <= i < tried(priority, names).len() ==> !priority.contains(
                #[trigger] tried(priority, names)[i],
            ),
        forall|i: int, j: int|
            0 <= i < j < tried(priority, names).len() && priority.len() <= j ==> #[trigger] tried(
                priority,
                names,
            )[i] != #[trigger] tried(priority, names)[j],
        forall|i: int, j: int|
            priority.len() <= i < j < tried(priority, names).len() ==> first_stands_before(
                names,
                #[trigger] tried(priority, names)[i],
                #[trigger] tried(priority, names)[j],
            ),
    decreases names.len(),
{
    if names.len() > 0 {
        let front = names.drop_last();
        let rest = tried(priority, front);
        let all = tried(priority, names);
        let end = names.len() - 1;
        law_order_of_accounts(priority, front);
        assert(names[end] == names.last());
        assert(forall|k: int| 0 <= k < end ==> #[trigger] names[k] == front[k]);
        assert(forall|i: int| 0 <= i < rest.len() ==> #[trigger] all[i] == rest[i]);
        assert forall|n: Seq<char>| #[trigger] all.contains(n) <==> priority.contains(n)
            || names.contains(n) by {
            assert(rest.contains(n) <==> priority.contains(n) || front.contains(n));
            if rest.contains(n) {
                let i = choose|i: int| 0 <= i < rest.len() && rest[i] == n;
                assert(all[i] == n);
            }
            if front.contains(n) {
                let k = choose|k: int| 0 <= k < front.len() && front[k] == n;
                assert(names[k] == n);
            }
            if names.contains(n) && !front.contains(n) {
                let k = choose|k: int| 0 <= k < names.len() && names[k] == n;
                if k < end {
                    assert(front[k] == n);
                }
                assert(n == names.last());
                if !rest.contains(n) {
                    assert(all[rest.len() as int] == n);
                }
            }
            if all.contains(n) && !rest.contains(n) {
                let i = choose|i: int| 0 <= i < all.len() && all[i] == n;
                if i < rest.len() {
                    assert(rest[i] == n);
                }
                assert(n == names.last());
            }
        }
        assert forall|i: int, j: int| priority.len() <= i < j < all.len() implies first_stands_before(
            names,
            #[trigger] all[i],
            #[trigger] all[j],
        ) by {
            assert(all[i] == rest[i]);
            if j < rest.len() {
                assert(all[j] == rest[j]);
                assert(first_stands_before(front, rest[i], rest[j]));
                let k = choose|k: int|
                    0 <= k < front.len() && #[trigger] front[k] == rest[i] && forall|e: int|
                        0 <= e <= k ==> #[trigger] front[e] != rest[j];
                assert(names[k] == all[i]);
                assert forall|e: int| 0 <= e <= k implies #[trigger] names[e] != all[j] by {
                    assert(front[e] != rest[j]);
                }
            } else {
                assert(rest.contains(rest[i]));
                assert(!priority.contains(rest[i]));
                assert(front.contains(rest[i]));
                let k = choose|k: int| 0 <= k < front.len() && front[k] == rest[i];
                assert(names[k] == all[i]);
                assert forall|e: int| 0 <= e <= k implies #[trigger] names[e] != all[j] by {
                    assert(front.contains(front[e]));
                    assert(rest.contains(front[e]));
                }
            }
        }
    }
}

/// One name is in a list before any place of another.
pub open spec fn first_stands_before(names: Seq<Seq<char>>, a: Seq<char>, b: Seq<char>) -> bool {
    exists|k: int|
        0 <= k < names.len() && #[trigger] names[k] == a && forall|e: int|
            0 <= e <= k ==> #[trigger] names[e] != b
}

/// An account is passed over where it is the one in use, where it is still waited out with the
/// same credentials, or where these are not valid. Otherwise one whose quota is known and fresh
/// takes over where that allows it, and one whose quota is due is asked for it, unless another one
/// was asked a short time ago. It is asked for once in thirty seconds at most.
pub proof fn law_what_is_done_with_an_account(
    s: Scan,
    candidate: Tree,
    current: Tree,
    key: Seq<char>,
    waited: Option<(Seq<char>, u64)>,
    status: Tree,
)
    ensures
        ({
            let (choice, after) = considered(s, candidate, current, key, waited, status);
            let out = accounts::identity_of(candidate) == accounts::identity_of(current) || (
            waited matches Some((k, until)) && k == key && s.now < until) || status.at(
                "auth_invalid"@,
            ) == Tree::Bool(true);
            let due = match status.at("next_check_at"@).number() {
                Some(at) => at as int,
                None => u64::MAX as int,
            };
            &&& choice == Choice::Activate <==> !out && s.now < due && status.at("error"@) is Null
                && quota::eligible_quota(status.at("quota"@))
            &&& choice == Choice::Query <==> !out && due <= s.now && s.next_scan <= s.now
            &&& after.now == s.now
            &&& out ==> after == s
            &&& choice != Choice::Query ==> after.next_scan == s.next_scan
            &&& choice == Choice::Query && s.now + 30 <= u64::MAX ==> after.next_scan == s.now + 30
            &&& !out ==> {
                &&& after.next_check <= s.next_check
                &&& after.next_check <= due || after.next_check <= s.next_scan
                &&& after.next_check == s.next_check || (after.next_check >= due
                    && after.next_check >= s.next_scan && (after.next_check == due
                    || after.next_check == s.next_scan))
            }
        }),
{
}

/// Where no account could take over, that is looked at again when one may be able to, in thirty
/// seconds at the earliest.
pub proof fn law_when_the_search_goes_on(s: Scan)
    requires
        s.now + 30 <= u64::MAX,
    ensures
        waiting_tree(s).at("phase"@) == Tree::Text("waiting"@),
        waiting_tree(s).at("next_check_at"@).number() matches Some(at) && {
            &&& at >= s.now + 30 && at >= s.next_check
            &&& at == s.now + 30 || at == s.next_check
        },
{
    reveal_strlit("phase");
    reveal_strlit("message");
    reveal_strlit("next_check_at");
    assert("phase"@.len() == 5 && "message"@.len() == 7 && "next_check_at"@.len() == 13);
}

/// What is remembered of a change tells when it was, between which accounts, and whether and why
/// it failed.
pub proof fn law_what_is_remembered_of_a_change(
    from: Seq<char>,
    to: Seq<char>,
    now: u64,
    error: Option<Seq<char>>,
)
    ensures
        ({
            let e = event_tree(from, to, now, error);
            &&& e.at("at"@).number() == Some(now)
            &&& e.at("from"@) == Tree::Text(from)
            &&& e.at("to"@) == Tree::Text(to)
            &&& e.at("ok"@) == Tree::Bool(error is None)
            &&& e.at("error"@).text() == error
        }),
{
    reveal_strlit("at");
    reveal_strlit("from");
    reveal_strlit("to");
    reveal_strlit("ok");
    reveal_strlit("reason");
    reveal_strlit("error");
    assert("at"@.len() == 2 && "from"@.len() == 4 && "to"@.len() == 2 && "ok"@.len() == 2
        && "reason"@.len() == 6 && "error"@.len() == 5);
    assert("at"@[0] == 'a' && "to"@[0] == 't' && "ok"@[0] == 'o');
}

/// The fifty latest changes are remembered, and the first 512 characters of an error.
pub proof fn law_how_much_is_remembered(events: Seq<Tree>, error: Option<Seq<char>>)
    ensures
        latest(events).is_prefix_of(events),
        events.len() <= 50 ==> latest(events) == events,
        events.len() > 50 ==> latest(events).len() == 50,
        bounded(error) is Some <==> error is Some,
        error matches Some(s) ==> {
            &&& bounded(error)->0.is_prefix_of(s)
            &&& s.len() <= 512 ==> bounded(error) == error
            &&& s.len() > 512 ==> bounded(error)->0.len() == 512
        },
{
}

/// An account that a change to failed is waited out for a quarter of an hour with those
/// credentials; one that a change to succeeded is not waited out any more. The others stay, unless
/// 64 are waited out already.
pub proof fn law_who_is_waited_out(
    m: Map<Seq<char>, (Seq<char>, u64)>,
    to: Seq<char>,
    key: Seq<char>,
    now: u64,
    other: Seq<char>,
)
    requires
        m.dom().finite(),
        m.dom().len() <= 64,
    ensures
        ({
            let failed = backoff_after(m, to, key, now, true);
            let done = backoff_after(m, to, key, now, false);
            &&& failed.contains_key(to) && failed[to].0 == key
            &&& now + 900 <= u64::MAX ==> failed[to].1 == now + 900
            &&& failed.dom().len() <= 64
            &&& m.dom().len() < 64 && other != to ==> (failed.contains_key(other)
                <==> m.contains_key(other)) && (m.contains_key(other) ==> failed[other]
                == m[other])
            &&& !done.contains_key(to)
            &&& other != to ==> (done.contains_key(other) <==> m.contains_key(other)) && (
            m.contains_key(other) ==> done[other] == m[other])
        }),
{
    let kept = if m.dom().len() >= 64 {
        Map::empty()
    } else {
        m
    };
    assert(backoff_after(m, to, key, now, true).dom() =~= kept.dom().insert(to));
}

/// Up to 64 accounts can have a priority, each by the name of a profile.
pub proof fn law_what_a_priority_is(list: Seq<Seq<char>>)
    ensures
        is_priority(list) <==> list.len() <= 64 && forall|n: Seq<char>| #[trigger]
            list.contains(n) ==> accounts::is_profile_name(n),
{
    if is_priority(list) {
        assert forall|n: Seq<char>| #[trigger] list.contains(n) implies accounts::is_profile_name(
            n,
        ) by {
            let i = choose|i: int| 0 <= i < list.len() && list[i] == n;
            assert(accounts::is_profile_name(list[i]));
        }
    }
    if forall|n: Seq<char>| #[trigger] list.contains(n) ==> accounts::is_profile_name(n) {
        assert forall|i: int| 0 <= i < list.len() implies accounts::is_profile_name(
            #[trigger] list[i],
        ) by {
            assert(list.contains(list[i]));
        }
    }
}

/// Credentials are loaded where the file still holds those of the account and the thread manager
/// says their token: the access token, or the key of an account without one. A file without either
/// is never loaded.
pub proof fn law_when_credentials_are_loaded(account: Seq<char>, disk: Tree, status: Tree)
    ensures
        ({
            let tokens = disk.at("tokens"@);
            let token = match tokens {
                Tree::Object(m) => if m.contains_key("access_token"@) {
                    m["access_token"@]
                } else {
                    disk.at("OPENAI_API_KEY"@)
                },
                _ => disk.at("OPENAI_API_KEY"@),
            };
            let c = confirmation(account, disk, status);
            let own = accounts::identity_of(disk) == account;
            &&& c == Confirmation::Replaced <==> !own
            &&& c == Confirmation::NoToken <==> own && !(token is Text)
            &&& c == Confirmation::Loaded <==> own && token is Text && status.at("authToken"@)
                == token
            &&& c == Confirmation::Pending <==> own && token is Text && status.at("authToken"@)
                != token
        }),
{
}

/// A search that finds no account goes on after a quarter of an hour at the latest.
pub proof fn law_how_a_search_starts(now: u64, next_scan: u64)
    requires
        now + 900 <= u64::MAX,
    ensures
        begun(now, next_scan).now == now,
        begun(now, next_scan).next_scan == next_scan,
        begun(now, next_scan).next_check == now + 900,
{
}

/// The credentials of a saved account are those in use where these are of the same account, for
/// they may have been refreshed, and otherwise those that are saved; either way they are of that
/// account.
pub proof fn law_which_credentials_count(saved: Tree, active: Option<Tree>)
    ensures
        ({
            let r = current_credentials(saved, active);
            &&& accounts::identity_of(r) == accounts::identity_of(saved)
            &&& active is Some && accounts::identity_of(active->0) == accounts::identity_of(saved)
                ==> r == active->0
            &&& active is None || accounts::identity_of(active->0) != accounts::identity_of(saved)
                ==> r == saved
        }),
{
}

/// The account is loaded where the thread manager reports the one that the tokens name; where they
/// name none there is nothing to compare.
pub proof fn law_when_the_account_is_loaded(disk: Tree, limits: Tree)
    ensures
        ({
            let id = disk.at("tokens"@).at("account_id"@);
            &&& id is Text ==> (is_account_loaded(disk, limits) <==> limits.at("accountId"@) == id)
            &&& !(id is Text) ==> is_account_loaded(disk, limits)
        }),
{
}

/// A change is remembered before those that came earlier, which keep their order, up to fifty in
/// all. An account that it failed for is waited out, and one that it succeeded for is not. What the
/// operator set stays.
pub proof fn law_how_a_change_is_kept(
    s: Settings,
    from: Seq<char>,
    to: Seq<char>,
    key: Seq<char>,
    now: u64,
    error: Option<Seq<char>>,
    i: int,
)
    ensures
        ({
            let after = recorded(s, from, to, key, now, error);
            &&& after.enabled == s.enabled && after.priority == s.priority
            &&& after.events.len() == (if s.events.len() < 50 {
                s.events.len() + 1
            } else {
                50
            })
            &&& after.events[0] == event_tree(from, to, now, bounded(error))
            &&& 0 < i < after.events.len() ==> after.events[i] == s.events[i - 1]
            &&& error is None ==> !after.backoff.contains_key(to)
            &&& error is Some ==> after.backoff.contains_key(to) && after.backoff[to].0 == key
        }),
{
}

/// What an earlier run kept is taken over with 64 priorities, fifty changes and 64 accounts that
/// are waited out at most.
pub proof fn law_what_is_taken_over(s: Settings)
    ensures
        is_within_bounds(s) <==> s.priority.len() <= 64 && s.events.len() <= 50
            && s.backoff.dom().len() <= 64,
{
}

} // verus!
