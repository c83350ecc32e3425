//! Durable logical identities, bounded apart from loaded threads and queue slots.
use crate::clock;
use crate::clock::since;
use crate::clock::LAST_INSTANT;
use crate::continuation::Continuation;
use crate::digest;
use crate::identity;
use crate::identity::Persona;
use crate::identity::SessionIdentity;
use crate::json::Json;
use crate::json::Tree;
use crate::table;
use crate::table::Table;
use crate::text;
use crate::text::contains_text;
use crate::text::join2;
use crate::text::same;
use vstd::prelude::*;

verus! {

broadcast use {
    vstd::seq_lib::group_seq_properties,
    vstd::map::group_map_axioms,
    vstd::set::group_set_axioms,
};

/// How many conversations are remembered.
pub const MAX_RECORDS: usize = 4096;

/// How long a conversation is remembered, in seconds.
pub const RETENTION: u64 = 2_592_000;

/// The largest file with remembered conversations, in bytes.
pub const MAX_INDEX: usize = 4_194_304;

/// How long a closing thread is asked again.
pub const RESUME_FOR: u128 = 5_000_000_000;

/// The pause before a closing thread is asked again.
pub const RESUME_PAUSE: u128 = 50_000_000;

/// The code of a request that the thread manager refuses.
pub const INVALID_REQUEST: i64 = -32600;

/// How a lease ended.
#[derive(Clone, Copy, Debug, PartialEq, Eq, Structural)]
pub enum Outcome {
    Released,
    Recoverable,
    Unknown,
}

/// What is remembered of a conversation.
#[derive(Debug)]
pub struct Record {
    pub account: String,
    pub identity: SessionIdentity,
    pub used_at: u64,
    pub invalid: bool,
    /// The local request ended, whatever became of it upstream.
    pub recoverable: bool,
}

/// The model of a `Record`.
pub struct Kept {
    pub account: Seq<char>,
    pub identity: Persona,
    pub used_at: u64,
    pub invalid: bool,
    pub recoverable: bool,
}

impl View for Record {
    type V = Kept;

    open spec fn view(&self) -> Kept {
        Kept {
            account: self.account@,
            identity: self.identity@,
            used_at: self.used_at,
            invalid: self.invalid,
            recoverable: self.recoverable,
        }
    }
}

#[derive(Debug)]
pub struct Conversations {
    pub account: Option<String>,
    pub records: Table<String, Record>,
    /// Loaded threads, with the instant since which they are idle; a leased one has none.
    pub loaded: Table<String, Option<u128>>,
    pub capacity: usize,
    pub idle_ttl: u128,
}

/// The model of a `Conversations`.
pub struct Registry {
    pub account: Option<Seq<char>>,
    pub records: Map<Seq<char>, Kept>,
    pub loaded: Map<Seq<char>, Option<u128>>,
    pub capacity: usize,
    pub idle_ttl: u128,
}

pub open spec fn records_view(m: Map<Seq<char>, Record>) -> Map<Seq<char>, Kept> {
    m.map_values(|r: Record| r@)
}

impl View for Conversations {
    type V = Registry;

    open spec fn view(&self) -> Registry {
        Registry {
            account: text::text_option(self.account),
            records: records_view(self.records@),
            loaded: self.loaded@,
            capacity: self.capacity,
            idle_ttl: self.idle_ttl,
        }
    }
}

/// Why a conversation cannot be had.
#[derive(Clone, Copy, Debug, PartialEq, Eq, Structural)]
pub enum Failure {
    /// The account changed; the process has to be started anew once it is drained.
    AccountChanged,
    /// The conversation's identity is lost.
    BindingLost,
    /// The conversation, or its original thread, is in use.
    Leased,
    /// No room is left.
    Full,
    /// What was asked of the thread manager, or of the disk, failed.
    Outside,
    /// A new thread came without an identifier.
    MissingThread,
    /// A thread has no identity.
    NotLoaded,
    /// A thread came back with another identity.
    IdentityChanged,
    /// The local request may not have ended.
    NotTerminated,
    /// The account's limits are unknown or used up.
    LimitsExhausted,
    /// The answer does not fit the question.
    Unexpected,
}

/// Where an acquisition stands.
#[derive(Debug)]
pub enum Stage {
    Unloading(String),
    Deleting(String, String),
    Deleted,
    Resuming(String, u128),
    Starting,
    Naming(String),
    Listing(String),
    Saving(SessionIdentity),
    Finished,
}

/// The model of a `Stage`.
pub enum Phase {
    Unloading(Seq<char>),
    Deleting(Seq<char>, Seq<char>),
    Deleted,
    Resuming(Seq<char>, u128),
    Starting,
    Naming(Seq<char>),
    Listing(Seq<char>),
    Saving(Persona),
    Finished,
}

impl View for Stage {
    type V = Phase;

    open spec fn view(&self) -> Phase {
        match *self {
            Stage::Unloading(t) => Phase::Unloading(t@),
            Stage::Deleting(k, t) => Phase::Deleting(k@, t@),
            Stage::Deleted => Phase::Deleted,
            Stage::Resuming(t, deadline) => Phase::Resuming(t@, deadline),
            Stage::Starting => Phase::Starting,
            Stage::Naming(t) => Phase::Naming(t@),
            Stage::Listing(t) => Phase::Listing(t@),
            Stage::Saving(i) => Phase::Saving(i@),
            Stage::Finished => Phase::Finished,
        }
    }
}

/// An acquisition of a conversation's identity.
#[derive(Debug)]
pub struct Acquisition {
    pub key: String,
    pub account: String,
    pub now: u64,
    pub prior: Option<SessionIdentity>,
    pub stage: Stage,
}

/// The model of an `Acquisition`.
pub struct Progress {
    pub key: Seq<char>,
    pub account: Seq<char>,
    pub now: u64,
    pub prior: Option<Persona>,
    pub stage: Phase,
}

impl View for Acquisition {
    type V = Progress;

    open spec fn view(&self) -> Progress {
        Progress {
            key: self.key@,
            account: self.account@,
            now: self.now,
            prior: identity::persona_option(self.prior),
            stage: self.stage@,
        }
    }
}

/// What came of the last action.
#[derive(Debug)]
pub enum Event {
    Done,
    /// The thread manager's error, or another one without a code.
    Failed(Option<i64>, String),
    Reply(Json),
    Identities(Vec<SessionIdentity>),
}

/// The model of an `Event`.
pub enum Answer {
    Done,
    Failed(Option<i64>, Seq<char>),
    Reply(Tree),
    Identities(Seq<Persona>),
}

impl View for Event {
    type V = Answer;

    open spec fn view(&self) -> Answer {
        match *self {
            Event::Done => Answer::Done,
            Event::Failed(code, message) => Answer::Failed(code, message@),
            Event::Reply(j) => Answer::Reply(j@),
            Event::Identities(list) => Answer::Identities(identity::personas(list@)),
        }
    }
}

/// What is to be done next.
#[derive(Debug)]
pub enum Action {
    Unsubscribe(String),
    Delete(String),
    Resume(String),
    /// Wait a little, then ask again to resume the thread.
    ResumeLater(String),
    Start,
    Name(String),
    List,
    /// Write the records to disk.
    Save,
    Finish(SessionIdentity),
    Fail(Failure),
}

/// The model of an `Action`.
pub enum Order {
    Unsubscribe(Seq<char>),
    Delete(Seq<char>),
    Resume(Seq<char>),
    ResumeLater(Seq<char>),
    Start,
    Name(Seq<char>),
    List,
    Save,
    Finish(Persona),
    Fail(Failure),
}

impl View for Action {
    type V = Order;

    open spec fn view(&self) -> Order {
        match *self {
            Action::Unsubscribe(t) => Order::Unsubscribe(t@),
            Action::Delete(t) => Order::Delete(t@),
            Action::Resume(t) => Order::Resume(t@),
            Action::ResumeLater(t) => Order::ResumeLater(t@),
            Action::Start => Order::Start,
            Action::Name(t) => Order::Name(t@),
            Action::List => Order::List,
            Action::Save => Order::Save,
            Action::Finish(i) => Order::Finish(i@),
            Action::Fail(f) => Order::Fail(f),
        }
    }
}

/// Whether a record is past its retention.
pub open spec fn outdated(k: Kept, now: u64) -> bool {
    now >= k.used_at && now - k.used_at >= RETENTION
}

/// The identity that a conversation goes on with.
pub open spec fn usable(r: Registry, key: Seq<char>, account: Seq<char>, now: u64) -> Option<
    Persona,
> {
    if r.records.contains_key(key) && r.records[key].account == account && !r.records[key].invalid
        && !outdated(r.records[key], now) {
        Some(r.records[key].identity)
    } else {
        None
    }
}

pub open spec fn leased(r: Registry, thread: Seq<char>) -> bool {
    r.loaded.contains_key(thread) && r.loaded[thread] is None
}

/// Whether a thread has to be unloaded before the conversation can be loaded.
pub open spec fn overfull(r: Registry, prior: Option<Persona>) -> bool {
    !(prior matches Some(i) && r.loaded.contains_key(i.thread_id)) && r.loaded.dom().len()
        >= r.capacity
}

pub open spec fn idle_rank() -> spec_fn(Seq<char>, Option<u128>) -> Option<u128> {
    |thread: Seq<char>, idle: Option<u128>| idle
}

/// Why an acquisition fails at once.
pub open spec fn refusal(
    r: Registry,
    key: Seq<char>,
    continuation: Continuation,
    account: Seq<char>,
    now: u64,
) -> Option<Failure> {
    let prior = usable(r, key, account, now);
    if r.account is Some && r.account != Some(account) {
        Some(Failure::AccountChanged)
    } else if prior is None && continuation == Continuation::RequiresIdentity {
        Some(Failure::BindingLost)
    } else if prior matches Some(i) && leased(r, i.thread_id) {
        Some(Failure::Leased)
    } else if prior is None && r.records.contains_key(key) && r.loaded.contains_key(
        r.records[key].identity.thread_id,
    ) {
        Some(Failure::BindingLost)
    } else if overfull(r, prior) && forall|t: Seq<char>| #[trigger]
        r.loaded.contains_key(t) ==> r.loaded[t] is None {
        Some(Failure::Full)
    } else {
        None
    }
}

/// The order in which obsolete records are deleted: the conversation's own first, then the one
/// that was not used for the longest time. A loaded thread's record is kept.
pub open spec fn obsolete_rank(r: Registry, p: Progress) -> spec_fn(Seq<char>, Kept) -> Option<
    u128,
> {
    |k: Seq<char>, kept: Kept|
        if !r.loaded.contains_key(kept.identity.thread_id) && ((k == p.key && p.prior is None)
            || outdated(kept, p.now) || (!r.records.contains_key(p.key) && r.records.dom().len()
            >= MAX_RECORDS)) {
            Some(
                (kept.used_at + (if k == p.key {
                    0int
                } else {
                    0x1_0000_0000_0000_0000int
                })) as u128,
            )
        } else {
            None
        }
}

/// How the conversation's thread is had once there is room.
pub open spec fn opened(r: Registry, p: Progress, instant: u128) -> (Progress, Order) {
    if !r.records.contains_key(p.key) && r.records.dom().len() >= MAX_RECORDS {
        (Progress { stage: Phase::Finished, ..p }, Order::Fail(Failure::Full))
    } else {
        match p.prior {
            Some(i) => if r.loaded.contains_key(i.thread_id) {
                (Progress { stage: Phase::Listing(i.thread_id), ..p }, Order::List)
            } else {
                (
                    Progress {
                        stage: Phase::Resuming(i.thread_id, (instant + RESUME_FOR) as u128),
                        ..p
                    },
                    Order::Resume(i.thread_id),
                )
            },
            None => (Progress { stage: Phase::Starting, ..p }, Order::Start),
        }
    }
}

/// Whether an obsolete record is deleted next, or else the conversation's thread is had.
pub open spec fn cleaned(
    r: Registry,
    p: Progress,
    instant: u128,
    after: Progress,
    order: Order,
) -> bool {
    let rank = obsolete_rank(r, p);
    if forall|k: Seq<char>| #[trigger] r.records.contains_key(k) ==> rank(k, r.records[k]) is None {
        (after, order) == opened(r, p, instant)
    } else {
        exists|k: Seq<char>|
            {
                &&& #[trigger] table::is_least(r.records, rank, k)
                &&& order == Order::Delete(r.records[k].identity.thread_id)
                &&& after == (Progress {
                    stage: Phase::Deleting(k, r.records[k].identity.thread_id),
                    ..p
                })
            }
    }
}

/// The registry with a thread that is loaded and idle.
pub open spec fn with_loaded(r: Registry, thread: Seq<char>, idle: Option<u128>) -> Registry {
    Registry { loaded: r.loaded.insert(thread, idle), ..r }
}

/// The registry when the identities are about to be listed: the conversation's thread is loaded,
/// and idle from now on, so that it can be unloaded where the listing fails.
pub open spec fn touched(r: Registry, p: Progress, instant: u128) -> Registry {
    match p.stage {
        Phase::Listing(thread) => with_loaded(r, thread, Some(instant)),
        _ => r,
    }
}

/// The text with which the thread manager says that a thread is gone.
pub open spec fn gone_text(thread: Seq<char>) -> Seq<char> {
    "thread not found: "@ + thread
}

/// Whether an error says that a thread is gone already.
pub open spec fn is_gone(code: Option<i64>, message: Seq<char>, thread: Seq<char>) -> bool {
    code == Some(INVALID_REQUEST) && message == gone_text(thread)
}

/// Whether an error says that a thread is closing.
pub open spec fn is_closing(code: Option<i64>, message: Seq<char>) -> bool {
    code == Some(INVALID_REQUEST) && text::occurs(message, "is closing; retry"@)
}

/// The first identity of a thread.
pub open spec fn identity_of(list: Seq<Persona>, thread: Seq<char>) -> Option<Persona>
    decreases list.len(),
{
    if list.len() == 0 {
        None
    } else {
        match identity_of(list.drop_last(), thread) {
            Some(i) => Some(i),
            None => if list.last().thread_id == thread {
                Some(list.last())
            } else {
                None
            },
        }
    }
}

/// The identifier of a new thread.
pub open spec fn new_thread(reply: Tree) -> Option<Seq<char>> {
    reply.at("thread"@).text_at("id"@)
}

pub open spec fn failed(p: Progress, f: Failure) -> (Progress, Order) {
    (Progress { stage: Phase::Finished, ..p }, Order::Fail(f))
}

/// What comes of an acquisition after the last action's answer.
pub open spec fn advanced(
    r: Registry,
    p: Progress,
    answer: Answer,
    instant: u128,
    r2: Registry,
    p2: Progress,
    order: Order,
) -> bool {
    match (p.stage, answer) {
        (Phase::Unloading(thread), Answer::Done) => {
            let unloaded = Registry { loaded: r.loaded.remove(thread), ..r };
            &&& cleaned(unloaded, p, instant, p2, order)
            &&& r2 == touched(unloaded, p2, instant)
        },
        (Phase::Deleting(key, _), Answer::Done) => {
            &&& r2 == (Registry { records: r.records.remove(key), ..r })
            &&& (p2, order) == (Progress { stage: Phase::Deleted, ..p }, Order::Save)
        },
        (Phase::Deleting(key, thread), Answer::Failed(code, message)) => if is_gone(
            code,
            message,
            thread,
        ) {
            &&& r2 == (Registry { records: r.records.remove(key), ..r })
            &&& (p2, order) == (Progress { stage: Phase::Deleted, ..p }, Order::Save)
        } else {
            r2 == r && (p2, order) == failed(p, Failure::Outside)
        },
        (Phase::Deleted, Answer::Done) => {
            &&& (p2, order) == opened(r, p, instant)
            &&& r2 == touched(r, p2, instant)
        },
        (Phase::Resuming(thread, _), Answer::Done) => {
            &&& r2 == with_loaded(r, thread, Some(instant))
            &&& (p2, order) == (Progress { stage: Phase::Listing(thread), ..p }, Order::List)
        },
        (Phase::Resuming(thread, deadline), Answer::Failed(code, message)) => r2 == r && (p2, order)
            == (if instant < deadline && is_closing(code, message) {
            (p, Order::ResumeLater(thread))
        } else {
            failed(p, Failure::Outside)
        }),
        (Phase::Starting, Answer::Reply(reply)) => match new_thread(reply) {
            Some(thread) => {
                &&& r2 == with_loaded(r, thread, Some(instant))
                &&& (p2, order) == (
                    Progress { stage: Phase::Naming(thread), ..p },
                    Order::Name(thread),
                )
            },
            None => r2 == r && (p2, order) == failed(p, Failure::MissingThread),
        },
        (Phase::Naming(thread), Answer::Done) => {
            &&& r2 == with_loaded(r, thread, Some(instant))
            &&& (p2, order) == (Progress { stage: Phase::Listing(thread), ..p }, Order::List)
        },
        (Phase::Listing(thread), Answer::Identities(list)) => match identity_of(list, thread) {
            None => r2 == r && (p2, order) == failed(p, Failure::NotLoaded),
            Some(i) => if p.prior is Some && p.prior != Some(i) {
                r2 == r && (p2, order) == failed(p, Failure::IdentityChanged)
            } else {
                &&& r2 == (Registry {
                    records: r.records.insert(
                        p.key,
                        Kept {
                            account: p.account,
                            identity: i,
                            used_at: p.now,
                            invalid: false,
                            recoverable: false,
                        },
                    ),
                    ..r
                })
                &&& (p2, order) == (Progress { stage: Phase::Saving(i), ..p }, Order::Save)
            },
        },
        (Phase::Saving(i), Answer::Done) => {
            &&& r2 == with_loaded(r, i.thread_id, None)
            &&& (p2, order) == (Progress { stage: Phase::Finished, ..p }, Order::Finish(i))
        },
        (_, Answer::Failed(_, _)) => r2 == r && (p2, order) == failed(p, Failure::Outside),
        _ => r2 == r && (p2, order) == failed(p, Failure::Unexpected),
    }
}

/// The registry with an account, where it had none.
pub open spec fn claimed(r: Registry, account: Seq<char>) -> Registry {
    Registry {
        account: if r.account is Some {
            r.account
        } else {
            Some(account)
        },
        ..r
    }
}

/// How an acquisition starts.
pub open spec fn begun(
    r: Registry,
    key: Seq<char>,
    continuation: Continuation,
    account: Seq<char>,
    now: u64,
    instant: u128,
    r2: Registry,
    p2: Progress,
    order: Order,
) -> bool {
    let prior = usable(r, key, account, now);
    let p = Progress { key, account, now, prior, stage: Phase::Finished };
    match refusal(r, key, continuation, account, now) {
        Some(f) => r2 == claimed(r, account) && (p2, order) == failed(p, f),
        None => if overfull(r, prior) {
            &&& r2 == claimed(r, account)
            &&& exists|t: Seq<char>|
                {
                    &&& #[trigger] table::is_least(r.loaded, idle_rank(), t)
                    &&& order == Order::Unsubscribe(t)
                    &&& p2 == (Progress { stage: Phase::Unloading(t), ..p })
                }
        } else {
            &&& cleaned(claimed(r, account), p, instant, p2, order)
            &&& r2 == touched(claimed(r, account), p2, instant)
        },
    }
}

/// The registry at a start: no thread is loaded yet.
pub open spec fn reopened(
    account: Option<Seq<char>>,
    records: Map<Seq<char>, Kept>,
    capacity: usize,
    idle_ttl: u128,
) -> Registry {
    Registry { account, records, loaded: Map::empty(), capacity, idle_ttl }
}

/// Whether some conversations in a file of some version and some bytes are taken over.
pub open spec fn is_restorable(version: u8, size: usize, records: nat) -> bool {
    size <= MAX_INDEX && version == 1 && records <= MAX_RECORDS
}

/// The registry after a thread was settled whose changed records were saved.
pub open spec fn settled(r: Registry, thread: Seq<char>, outcome: Outcome, instant: u128) -> Registry {
    if outcome == Outcome::Recoverable {
        idled(r, thread, instant)
    } else {
        r
    }
}

/// The registry after the lease of a thread ended.
pub open spec fn released(r: Registry, thread: Seq<char>, outcome: Outcome, instant: u128) -> Registry {
    match outcome {
        Outcome::Released => idled(r, thread, instant),
        Outcome::Recoverable => invalidated(r, thread, true),
        Outcome::Unknown => invalidated(r, thread, false),
    }
}

impl Conversations {
    pub open spec fn wf(&self) -> bool {
        self.records.wf() && self.loaded.wf()
    }

    /// Starts the acquisition of a conversation's identity for an account.
    pub fn acquire(
        &mut self,
        key: String,
        continuation: Continuation,
        account: String,
        now: u64,
        instant: u128,
    ) -> (r: (Acquisition, Action))
        requires
            old(self).wf(),
            instant + RESUME_FOR <= LAST_INSTANT,
        ensures
            final(self).wf(),
            begun(
                old(self)@,
                key@,
                continuation,
                account@,
                now,
                instant,
                final(self)@,
                r.0@,
                r.1@,
            ),
    {
        let ghost before = self@;
        let prior = self.find_usable(&key, &account, now);
        let known = match &self.account {
            Some(active) => same(active, &account),
            None => true,
        };
        let mut acquisition = Acquisition {
            key,
            account,
            now,
            prior,
            stage: Stage::Finished,
        };
        if !known {
            return (acquisition, Action::Fail(Failure::AccountChanged));
        }
        if self.account.is_none() {
            self.account = Some(acquisition.account.clone());
        }
        match &acquisition.prior {
            None => {
                if continuation == Continuation::RequiresIdentity {
                    return (acquisition, Action::Fail(Failure::BindingLost));
                }
                if let Some(record) = self.records.get(&acquisition.key) {
                    if self.loaded.has(&record.identity.thread_id) {
                        return (acquisition, Action::Fail(Failure::BindingLost));
                    }
                }
            },
            Some(identity) => {
                if let Some(idle) = self.loaded.get(&identity.thread_id) {
                    if idle.is_none() {
                        return (acquisition, Action::Fail(Failure::Leased));
                    }
                }
            },
        }
        let already = match &acquisition.prior {
            Some(identity) => self.loaded.has(&identity.thread_id),
            None => false,
        };
        if !already && self.loaded.len() >= self.capacity {
            let test = |thread: &String, idle: &Option<u128>| -> (at: Option<u128>)
                ensures
                    at == *idle,
                { *idle };
            return match self.loaded.least(test, Ghost(idle_rank())) {
                Some(i) => {
                    let thread = self.loaded.entries[i].0.clone();
                    acquisition.stage = Stage::Unloading(thread.clone());
                    (acquisition, Action::Unsubscribe(thread))
                },
                None => (acquisition, Action::Fail(Failure::Full)),
            };
        }
        let action = self.clean(&mut acquisition, instant);
        self.touch(&acquisition, instant);
        (acquisition, action)
    }

    /// Has the thread whose identity is about to be listed loaded and idle.
    fn touch(&mut self, acquisition: &Acquisition, instant: u128)
        requires
            old(self).wf(),
        ensures
            final(self).wf(),
            final(self)@ == touched(old(self)@, acquisition@, instant),
    {
        if let Stage::Listing(thread) = &acquisition.stage {
            self.loaded.insert(thread.clone(), Some(instant));
        }
    }

    /// The identity that a conversation goes on with.
    fn find_usable(&self, key: &String, account: &str, now: u64) -> (r: Option<SessionIdentity>)
        requires
            self.wf(),
        ensures
            identity::persona_option(r) == usable(self@, key@, account@, now),
    {
        match self.records.get(key) {
            Some(record) => if same(&record.account, account) && !record.invalid && !(now
                >= record.used_at && now - record.used_at >= RETENTION) {
                Some(record.identity.duplicate())
            } else {
                None
            },
            None => None,
        }
    }

    /// Deletes an obsolete record, or else goes on to the conversation's thread.
    fn clean(&self, acquisition: &mut Acquisition, instant: u128) -> (r: Action)
        requires
            self.wf(),
            instant + RESUME_FOR <= LAST_INSTANT,
        ensures
            cleaned(self@, old(acquisition)@, instant, final(acquisition)@, r@),
    {
        let ghost p = acquisition@;
        let ghost reg = self@;
        let ghost raw = self.records@;
        assert(reg.records.dom() =~= raw.dom());
        let crowded = !self.records.has(&acquisition.key) && self.records.len() >= MAX_RECORDS;
        let fresh = acquisition.prior.is_none();
        let now = acquisition.now;
        let key = acquisition.key.clone();
        let loaded = &self.loaded;
        let test = |k: &String, record: &Record| -> (at: Option<u128>)
            requires
                loaded.wf(),
            ensures
                at == (if !loaded@.contains_key(record@.identity.thread_id) && ((k@ == key@
                    && fresh) || outdated(record@, now) || crowded) {
                    Some(
                        (record.used_at + (if k@ == key@ {
                            0int
                        } else {
                            0x1_0000_0000_0000_0000int
                        })) as u128,
                    )
                } else {
                    None
                }),
            {
                let own = same(k, &key);
                let old = now >= record.used_at && now - record.used_at >= RETENTION;
                if !loaded.has(&record.identity.thread_id) && ((own && fresh) || old || crowded) {
                    Some(
                        record.used_at as u128 + if own {
                            0u128
                        } else {
                            0x1_0000_0000_0000_0000u128
                        },
                    )
                } else {
                    None
                }
            };
        let ghost rank = |k: Seq<char>, record: Record| (obsolete_rank(reg, p))(k, record@);
        let found = self.records.least(test, Ghost(rank));
        match found {
            Some(i) => {
                let key = self.records.entries[i].0.clone();
                let thread = self.records.entries[i].1.identity.thread_id.clone();
                proof {
                    table::lemma_map_of(self.records.entries@);
                    lemma_least_view(raw, reg.records, obsolete_rank(reg, p), key@);
                    assert(raw[self.records.entries@[i as int].0@]
                        == self.records.entries@[i as int].1);
                    assert(reg.records[key@].identity.thread_id == thread@);
                }
                acquisition.stage = Stage::Deleting(key, thread.clone());
                proof {
                    assert(table::is_least(reg.records, obsolete_rank(reg, p), key@));
                }
                Action::Delete(thread)
            },
            None => {
                proof {
                    assert forall|k: Seq<char>| #[trigger] reg.records.contains_key(k) implies (
                    obsolete_rank(reg, p))(k, reg.records[k]) is None by {
                        assert(raw.contains_key(k));
                    }
                }
                self.open(acquisition, instant)
            },
        }
    }

    /// Goes on to the conversation's thread.
    fn open(&self, acquisition: &mut Acquisition, instant: u128) -> (r: Action)
        requires
            self.wf(),
            instant + RESUME_FOR <= LAST_INSTANT,
        ensures
            (final(acquisition)@, r@) == opened(self@, old(acquisition)@, instant),
    {
        assert(self@.records.dom() =~= self.records@.dom());
        if !self.records.has(&acquisition.key) && self.records.len() >= MAX_RECORDS {
            acquisition.stage = Stage::Finished;
            return Action::Fail(Failure::Full);
        }
        match &acquisition.prior {
            Some(identity) => {
                let thread = identity.thread_id.clone();
                if self.loaded.has(&thread) {
                    acquisition.stage = Stage::Listing(thread);
                    Action::List
                } else {
                    acquisition.stage = Stage::Resuming(thread.clone(), instant + RESUME_FOR);
                    Action::Resume(thread)
                }
            },
            None => {
                acquisition.stage = Stage::Starting;
                Action::Start
            },
        }
    }

    /// Goes on with an acquisition after the last action's answer.
    pub fn advance(&mut self, acquisition: &mut Acquisition, event: Event, instant: u128) -> (r:
        Action)
        requires
            old(self).wf(),
            instant + RESUME_FOR <= LAST_INSTANT,
        ensures
            final(self).wf(),
            advanced(
                old(self)@,
                old(acquisition)@,
                event@,
                instant,
                final(self)@,
                final(acquisition)@,
                r@,
            ),
    {
        let ghost reg = self@;
        let ghost raw = self.records@;
        let mut stage = Stage::Finished;
        std::mem::swap(&mut stage, &mut acquisition.stage);
        match (stage, event) {
            (Stage::Unloading(thread), Event::Done) => {
                let _ = self.loaded.remove(&thread);
                acquisition.stage = Stage::Unloading(thread);
                let action = self.clean(acquisition, instant);
                self.touch(acquisition, instant);
                action
            },
            (Stage::Deleting(key, _), Event::Done) => {
                self.forget(&key);
                acquisition.stage = Stage::Deleted;
                Action::Save
            },
            (Stage::Deleting(key, thread), Event::Failed(code, message)) => {
                let text = join2("thread not found: ", &thread);
                let refused = match code {
                    Some(code) => code == INVALID_REQUEST,
                    None => false,
                };
                if refused && same(&message, &text) {
                    self.forget(&key);
                    acquisition.stage = Stage::Deleted;
                    Action::Save
                } else {
                    Action::Fail(Failure::Outside)
                }
            },
            (Stage::Deleted, Event::Done) => {
                let action = self.open(acquisition, instant);
                self.touch(acquisition, instant);
                action
            },
            (Stage::Resuming(thread, _), Event::Done) => {
                self.loaded.insert(thread.clone(), Some(instant));
                acquisition.stage = Stage::Listing(thread);
                Action::List
            },
            (Stage::Resuming(thread, deadline), Event::Failed(code, message)) => {
                let refused = match code {
                    Some(code) => code == INVALID_REQUEST,
                    None => false,
                };
                if instant < deadline && refused && contains_text(&message, "is closing; retry") {
                    acquisition.stage = Stage::Resuming(thread.clone(), deadline);
                    Action::ResumeLater(thread)
                } else {
                    Action::Fail(Failure::Outside)
                }
            },
            (Stage::Starting, Event::Reply(reply)) => {
                let id = match reply.get("thread") {
                    Some(thread) => thread.text_at("id"),
                    None => None,
                };
                match id {
                    Some(id) => {
                        self.loaded.insert(id.clone(), Some(instant));
                        acquisition.stage = Stage::Naming(id.clone());
                        Action::Name(id.clone())
                    },
                    None => Action::Fail(Failure::MissingThread),
                }
            },
            (Stage::Naming(thread), Event::Done) => {
                self.loaded.insert(thread.clone(), Some(instant));
                acquisition.stage = Stage::Listing(thread);
                Action::List
            },
            (Stage::Listing(thread), Event::Identities(list)) => self.confirm(
                acquisition,
                &thread,
                &list,
            ),
            (Stage::Saving(identity), Event::Done) => {
                self.loaded.insert(identity.thread_id.clone(), None);
                Action::Finish(identity)
            },
            (_, Event::Failed(_, _)) => Action::Fail(Failure::Outside),
            _ => Action::Fail(Failure::Unexpected),
        }
    }

    fn forget(&mut self, key: &String)
        requires
            old(self).wf(),
        ensures
            final(self).wf(),
            final(self)@ == (Registry {
                records: old(self)@.records.remove(key@),
                ..old(self)@
            }),
    {
        proof {
            table::lemma_mapped_remove(self.records@, |r: Record| r@, key@);
        }
        let _ = self.records.remove(key);
    }

    /// Keeps the conversation's identity, where it is the one expected.
    fn confirm(
        &mut self,
        acquisition: &mut Acquisition,
        thread: &str,
        list: &Vec<SessionIdentity>,
    ) -> (r: Action)
        requires
            old(self).wf(),
            old(acquisition)@.stage == Phase::Finished,
        ensures
            final(self).wf(),
            advanced(
                old(self)@,
                (Progress { stage: Phase::Listing(thread@), ..old(acquisition)@ }),
                Answer::Identities(identity::personas(list@)),
                0,
                final(self)@,
                final(acquisition)@,
                r@,
            ),
    {
        let identity = match find_identity(list, thread) {
            Some(i) => list[i].duplicate(),
            None => return Action::Fail(Failure::NotLoaded),
        };
        let changed = match &acquisition.prior {
            Some(prior) => !prior.equals(&identity),
            None => false,
        };
        if changed {
            return Action::Fail(Failure::IdentityChanged);
        }
        let record = Record {
            account: acquisition.account.clone(),
            identity: identity.duplicate(),
            used_at: acquisition.now,
            invalid: false,
            recoverable: false,
        };
        proof {
            table::lemma_mapped_insert(
                self.records@,
                |r: Record| r@,
                acquisition.key@,
                record,
            );
        }
        self.records.insert(acquisition.key.clone(), record);
        acquisition.stage = Stage::Saving(identity);
        Action::Save
    }

    /// Takes over the conversations of an earlier run from a file of `size` bytes. Those in
    /// `unknown` may still run upstream and cannot be continued. Nothing where the file is of
    /// another version or holds too much.
    pub fn restore(
        version: u8,
        records: Table<String, Record>,
        size: usize,
        unknown: &Vec<String>,
        account: Option<String>,
        capacity: usize,
        idle_ttl: u128,
    ) -> (r: Option<Conversations>)
        requires
            records.wf(),
        ensures
            r is Some <==> is_restorable(version, size, records@.dom().len()),
            r matches Some(c) ==> {
                &&& c.wf()
                &&& c@ == reopened(
                    text::text_option(account),
                    suspected(records_view(records@), text::texts(unknown@)),
                    capacity,
                    idle_ttl,
                )
            },
    {
        let mut records = records;
        if size > MAX_INDEX || version != 1 || records.len() > MAX_RECORDS {
            return None;
        }
        let ghost start = records_view(records@);
        let ghost all = text::texts(unknown@);
        let mut i: usize = 0;
        assert(all.take(0) =~= Seq::empty());
        assert(suspected(start, all.take(0)) =~= start);
        while i < unknown.len()
            invariant
                i <= unknown@.len(),
                all == text::texts(unknown@),
                records.wf(),
                records_view(records@) == suspected(start, all.take(i as int)),
            decreases unknown@.len() - i,
        {
            let ghost before = records@;
            let key = &unknown[i];
            proof {
                lemma_suspect_one_more(start, all, i as int);
            }
            if let Some(record) = records.get_mut(key) {
                record.invalid = true;
                proof {
                    table::lemma_mapped_insert(before, |r: Record| r@, key@, *record);
                }
            }
            i += 1;
        }
        assert(all.take(all.len() as int) == all);
        Some(Conversations { account, records, loaded: Table::new(), capacity, idle_ttl })
    }

    /// Ends the lease of a thread; whether the records changed and have to be saved before the
    /// thread is settled.
    pub fn release(&mut self, thread: &String, outcome: Outcome, instant: u128) -> (r: bool)
        requires
            old(self).wf(),
        ensures
            final(self).wf(),
            r == (outcome != Outcome::Released),
            final(self)@ == released(old(self)@, thread@, outcome, instant),
    {
        match outcome {
            Outcome::Released => {
                self.idle(thread, instant);
                false
            },
            Outcome::Recoverable => {
                self.invalidate(thread, true);
                true
            },
            Outcome::Unknown => {
                self.invalidate(thread, false);
                true
            },
        }
    }

    /// Settles a thread whose changed records were saved: one whose request ended is idle.
    pub fn settle(&mut self, thread: &String, outcome: Outcome, instant: u128)
        requires
            old(self).wf(),
        ensures
            final(self).wf(),
            final(self)@ == settled(old(self)@, thread@, outcome, instant),
    {
        if outcome == Outcome::Recoverable {
            self.idle(thread, instant);
        }
    }

    fn idle(&mut self, thread: &String, instant: u128)
        requires
            old(self).wf(),
        ensures
            final(self).wf(),
            final(self)@ == idled(old(self)@, thread@, instant),
    {
        if self.loaded.has(thread) {
            self.loaded.insert(thread.clone(), Some(instant));
        }
    }

    fn invalidate(&mut self, thread: &str, recoverable: bool)
        requires
            old(self).wf(),
        ensures
            final(self).wf(),
            final(self)@ == invalidated(old(self)@, thread@, recoverable),
    {
        let ghost first = self.records.entries@;
        let ghost f = |r: Record| r@;
        let ghost g = |k: Kept| invalid_for(k, thread@, recoverable);
        let mut i: usize = 0;
        while i < self.records.entries.len()
            invariant
                i <= self.records.entries@.len() == first.len(),
                first == old(self).records.entries@,
                self.account == old(self).account,
                self.loaded == old(self).loaded,
                self.capacity == old(self).capacity,
                self.idle_ttl == old(self).idle_ttl,
                forall|k: int|
                    0 <= k < first.len() ==> (#[trigger] self.records.entries@[k]).0 == first[k].0,
                forall|k: int|
                    0 <= k < i ==> (#[trigger] self.records.entries@[k]).1@ == invalid_for(
                        first[k].1@,
                        thread@,
                        recoverable,
                    ),
                forall|k: int|
                    i <= k < first.len() ==> #[trigger] self.records.entries@[k] == first[k],
            decreases first.len() - i,
        {
            assert(self.records.entries@[i as int] == first[i as int]);
            let record = self.records.value_mut(i);
            if same(&record.identity.thread_id, thread) {
                record.invalid = true;
                record.recoverable = recoverable;
            }
            i += 1;
        }
        proof {
            table::lemma_changed_all(first, self.records.entries@, f, g);
        }
    }

    /// The threads that have been idle for too long, to be unloaded one by one.
    pub fn expired(&self, instant: u128) -> (r: Vec<String>)
        requires
            self.wf(),
        ensures
            forall|t: Seq<char>| #[trigger]
                text::texts(r@).contains(t) <==> is_expired(self@, t, instant),
    {
        let ghost all = self.loaded.entries@;
        let mut out: Vec<String> = Vec::new();
        let mut i: usize = 0;
        while i < self.loaded.entries.len()
            invariant
                i <= self.loaded.entries@.len(),
                self.wf(),
                all == self.loaded.entries@,
                forall|t: Seq<char>| #[trigger]
                    text::texts(out@).contains(t) <==> exists|k: int|
                        0 <= k < i && (#[trigger] all[k]).0@ == t && idle_too_long(
                            all[k].1,
                            self.idle_ttl,
                            instant,
                        ),
            decreases self.loaded.entries@.len() - i,
        {
            let long = match self.loaded.entries[i].1 {
                Some(at) => since(instant, at) >= self.idle_ttl,
                None => false,
            };
            let ghost before = text::texts(out@);
            if long {
                out.push(self.loaded.entries[i].0.clone());
                assert(text::texts(out@) =~= before.push(all[i as int].0@));
            }
            proof {
                let after = text::texts(out@);
                assert forall|t: Seq<char>| #[trigger] after.contains(t) implies exists|k: int|
                    0 <= k < i + 1 && (#[trigger] all[k]).0@ == t && idle_too_long(
                        all[k].1,
                        self.idle_ttl,
                        instant,
                    ) by {
                    let n = choose|n: int| 0 <= n < after.len() && after[n] == t;
                    if n < before.len() {
                        assert(before[n] == t);
                        assert(before.contains(t));
                        let k = choose|k: int|
                            0 <= k < i && (#[trigger] all[k]).0@ == t && idle_too_long(
                                all[k].1,
                                self.idle_ttl,
                                instant,
                            );
                        assert(all[k].0@ == t);
                    } else {
                        assert(all[i as int].0@ == t);
                    }
                }
                assert forall|t: Seq<char>, k: int|
                    0 <= k < i + 1 && (#[trigger] all[k]).0@ == t && idle_too_long(
                        all[k].1,
                        self.idle_ttl,
                        instant,
                    ) implies #[trigger] after.contains(t) by {
                    if k < i {
                        assert(before.contains(t));
                        let n = choose|n: int| 0 <= n < before.len() && before[n] == t;
                        assert(after[n] == t);
                    } else {
                        assert(after[before.len() as int] == t);
                    }
                }
            }
            i += 1;
        }
        proof {
            table::lemma_map_of(all);
            assert forall|t: Seq<char>| #[trigger] text::texts(out@).contains(t) <==> is_expired(
                self@,
                t,
                instant,
            ) by {
                if text::texts(out@).contains(t) {
                    let k = choose|k: int|
                        0 <= k < all.len() && (#[trigger] all[k]).0@ == t && idle_too_long(
                            all[k].1,
                            self.idle_ttl,
                            instant,
                        );
                    assert(self.loaded@.contains_key(all[k].0@));
                }
                if is_expired(self@, t, instant) {
                    let k = choose|k: int| 0 <= k < all.len() && (#[trigger] all[k]).0@ == t;
                    assert(self.loaded@[all[k].0@] == all[k].1);
                }
            }
        }
        out
    }

    /// Notes that a thread was unloaded.
    pub fn unloaded(&mut self, thread: &String)
        requires
            old(self).wf(),
        ensures
            final(self).wf(),
            final(self)@ == (Registry {
                loaded: old(self)@.loaded.remove(thread@),
                ..old(self)@
            }),
    {
        let _ = self.loaded.remove(thread);
    }

    /// Whether a conversation whose local request ended can have its binding back: the thread,
    /// and whether it has to be resumed first.
    pub fn restorable(&self, key: &String, account: &str) -> (r: Result<(String, bool), Failure>)
        requires
            self.wf(),
        ensures
            match restoring(self@, key@, account@) {
                Some(f) => r == Err::<(String, bool), Failure>(f),
                None => r matches Ok((thread, resume)) && thread@
                    == self@.records[key@].identity.thread_id && resume
                    == !self@.loaded.contains_key(thread@),
            },
    {
        let known = match &self.account {
            Some(active) => same(active, account),
            None => false,
        };
        if !known {
            return Err(Failure::AccountChanged);
        }
        match self.records.get(key) {
            None => Err(Failure::BindingLost),
            Some(record) => {
                if !record.recoverable {
                    return Err(Failure::NotTerminated);
                }
                let thread = record.identity.thread_id.clone();
                match self.loaded.get(&thread) {
                    Some(idle) => if idle.is_none() {
                        Err(Failure::Leased)
                    } else {
                        Ok((thread, false))
                    },
                    None => Ok((thread, true)),
                }
            },
        }
    }

    /// Notes that a thread was resumed.
    pub fn resumed(&mut self, thread: &String, instant: u128)
        requires
            old(self).wf(),
        ensures
            final(self).wf(),
            final(self)@ == with_loaded(old(self)@, thread@, Some(instant)),
    {
        self.loaded.insert(thread.clone(), Some(instant));
    }

    /// Gives a conversation its binding back, where its identity is among those loaded. That
    /// its request ended stays on record until the next acquisition, so that this can be done
    /// again.
    pub fn restore_binding(&mut self, key: &String, list: &Vec<SessionIdentity>) -> (r: Result<
        (),
        Failure,
    >)
        requires
            old(self).wf(),
        ensures
            final(self).wf(),
            r == rebinding(old(self)@, key@, identity::personas(list@)),
            final(self)@ == rebound(old(self)@, key@, identity::personas(list@)),
    {
        let ghost before = self.records@;
        let ghost views = identity::personas(list@);
        let record = match self.records.get(key) {
            Some(record) => record,
            None => return Err(Failure::BindingLost),
        };
        let mut found = false;
        let mut i: usize = 0;
        while i < list.len()
            invariant
                i <= list@.len(),
                views == identity::personas(list@),
                found == exists|k: int| 0 <= k < i && #[trigger] views[k] == record@.identity,
            decreases list@.len() - i,
        {
            assert(views[i as int] == list@[i as int]@);
            if list[i].equals(&record.identity) {
                found = true;
            }
            i += 1;
        }
        assert(found == views.contains(record@.identity));
        if !found {
            return Err(Failure::IdentityChanged);
        }
        if let Some(record) = self.records.get_mut(key) {
            record.invalid = false;
            proof {
                table::lemma_mapped_insert(before, |r: Record| r@, key@, *record);
            }
        }
        Ok(())
    }

    /// Whether the account's limits leave room for another request, and are those of this
    /// account.
    pub fn check_limits(&self, limits: &Json) -> (r: Result<(), Failure>)
        ensures
            r == limits_verdict(self@.account, limits@),
    {
        if let Some(id) = limits.text_at("accountId") {
            let digest = digest::digest_pair("chatgpt", id);
            let ours = match &self.account {
                Some(account) => same(account, &digest),
                None => false,
            };
            if !ours {
                return Err(Failure::AccountChanged);
            }
        }
        let room = match limits.get("rateLimits") {
            Some(snapshot) => has_room(snapshot),
            None => {
                assert(!(Tree::Null.at("primary"@) is Object));
                false
            },
        };
        if room {
            Ok(())
        } else {
            Err(Failure::LimitsExhausted)
        }
    }
}

/// The requests of one thread can no longer be continued.
pub open spec fn invalid_for(k: Kept, thread: Seq<char>, recoverable: bool) -> Kept {
    if k.identity.thread_id == thread {
        Kept { invalid: true, recoverable, ..k }
    } else {
        k
    }
}

pub open spec fn invalidated(r: Registry, thread: Seq<char>, recoverable: bool) -> Registry {
    Registry {
        records: r.records.map_values(|k: Kept| invalid_for(k, thread, recoverable)),
        ..r
    }
}

/// The registry in which a loaded thread is idle.
pub open spec fn idled(r: Registry, thread: Seq<char>, instant: u128) -> Registry {
    if r.loaded.contains_key(thread) {
        with_loaded(r, thread, Some(instant))
    } else {
        r
    }
}

/// The records in which some conversations cannot be continued.
pub open spec fn suspected(m: Map<Seq<char>, Kept>, unknown: Seq<Seq<char>>) -> Map<
    Seq<char>,
    Kept,
> {
    Map::new(
        |k: Seq<char>| m.contains_key(k),
        |k: Seq<char>|
            if unknown.contains(k) {
                Kept { invalid: true, ..m[k] }
            } else {
                m[k]
            },
    )
}

proof fn lemma_suspect_one_more(m: Map<Seq<char>, Kept>, unknown: Seq<Seq<char>>, i: int)
    requires
        0 <= i < unknown.len(),
    ensures
        ({
            let before = suspected(m, unknown.take(i));
            suspected(m, unknown.take(i + 1)) == (if m.contains_key(unknown[i]) {
                before.insert(unknown[i], Kept { invalid: true, ..before[unknown[i]] })
            } else {
                before
            })
        }),
{
    let a = unknown.take(i);
    let b = unknown.take(i + 1);
    assert(b == a.push(unknown[i]));
    assert forall|k: Seq<char>| #[trigger] b.contains(k) <==> a.contains(k) || k == unknown[i] by {
        if a.contains(k) {
            let j = choose|j: int| 0 <= j < a.len() && a[j] == k;
            assert(b[j] == k);
        }
        assert(b[i] == unknown[i]);
    }
    let before = suspected(m, a);
    let target = if m.contains_key(unknown[i]) {
        before.insert(unknown[i], Kept { invalid: true, ..before[unknown[i]] })
    } else {
        before
    };
    assert(suspected(m, b) =~= target);
}

pub open spec fn idle_too_long(idle: Option<u128>, ttl: u128, instant: u128) -> bool {
    idle matches Some(at) && clock::elapsed(instant, at) >= ttl
}

/// Whether a thread has been idle for too long.
pub open spec fn is_expired(r: Registry, thread: Seq<char>, instant: u128) -> bool {
    r.loaded.contains_key(thread) && idle_too_long(r.loaded[thread], r.idle_ttl, instant)
}

/// Why a conversation cannot have its binding back.
pub open spec fn restoring(r: Registry, key: Seq<char>, account: Seq<char>) -> Option<Failure> {
    if r.account != Some(account) {
        Some(Failure::AccountChanged)
    } else if !r.records.contains_key(key) {
        Some(Failure::BindingLost)
    } else if !r.records[key].recoverable {
        Some(Failure::NotTerminated)
    } else if leased(r, r.records[key].identity.thread_id) {
        Some(Failure::Leased)
    } else {
        None
    }
}

pub open spec fn rebinding(r: Registry, key: Seq<char>, list: Seq<Persona>) -> Result<(), Failure> {
    if !r.records.contains_key(key) {
        Err(Failure::BindingLost)
    } else if !list.contains(r.records[key].identity) {
        Err(Failure::IdentityChanged)
    } else {
        Ok(())
    }
}

pub open spec fn rebound(r: Registry, key: Seq<char>, list: Seq<Persona>) -> Registry {
    if rebinding(r, key, list) is Ok {
        Registry {
            records: r.records.insert(key, Kept { invalid: false, ..r.records[key] }),
            ..r
        }
    } else {
        r
    }
}

/// The bits of the double 100.
pub const HUNDRED: u64 = 0x4059_0000_0000_0000;

/// The bits of the double minus zero.
pub const MINUS_ZERO: u64 = 0x8000_0000_0000_0000;

/// Whether a double, given by its bits, is at least zero and less than 100: the bits of
/// non-negative doubles are ordered as the doubles are, and those of negative ones are larger.
pub open spec fn below_hundred(bits: u64) -> bool {
    bits < HUNDRED || bits == MINUS_ZERO
}

/// Whether a limit's window, where there is one, is not used up.
pub open spec fn window_open(window: Tree) -> bool {
    window is Object ==> (window.at("usedPercent"@).bits() matches Some(bits) && below_hundred(
        bits,
    ))
}

/// Whether an account's limits are known and leave room.
pub open spec fn room_left(snapshot: Tree) -> bool {
    &&& snapshot.at("primary"@) is Object || snapshot.at("secondary"@) is Object
    &&& window_open(snapshot.at("primary"@))
    &&& window_open(snapshot.at("secondary"@))
    &&& snapshot.at("spendControlReached"@) != Tree::Bool(true)
    &&& snapshot.at("rateLimitReachedType"@) is Null
    &&& (snapshot.at("individualLimit"@).at("remainingPercent"@).signed() matches Some(left) ==> left
        > 0)
}

pub open spec fn limits_verdict(account: Option<Seq<char>>, limits: Tree) -> Result<(), Failure> {
    if limits.text_at("accountId"@) matches Some(id) && account != Some(
        digest::pair_digest("chatgpt"@, id),
    ) {
        Err(Failure::AccountChanged)
    } else if room_left(limits.at("rateLimits"@)) {
        Ok(())
    } else {
        Err(Failure::LimitsExhausted)
    }
}

fn is_window_open(window: Option<&Json>) -> (r: (bool, bool))
    ensures
        r.0 == (window matches Some(w) && w@ is Object),
        r.1 == (window matches Some(w) ==> window_open(w@)),
{
    match window {
        None => (false, true),
        Some(window) => {
            if !window.is_object() {
                return (false, true);
            }
            let open = match window.get("usedPercent") {
                Some(used) => match used.as_bits() {
                    Some(bits) => bits < HUNDRED || bits == MINUS_ZERO,
                    None => false,
                },
                None => false,
            };
            (true, open)
        },
    }
}

/// Whether an account's limits are known and leave room.
fn has_room(snapshot: &Json) -> (r: bool)
    ensures
        r == room_left(snapshot@),
{
    let primary = is_window_open(snapshot.get("primary"));
    let secondary = is_window_open(snapshot.get("secondary"));
    let spent = match snapshot.get("spendControlReached") {
        Some(j) => match j.as_flag() {
            Some(flag) => flag,
            None => false,
        },
        None => false,
    };
    let left = match snapshot.get("individualLimit") {
        Some(limit) => match limit.get("remainingPercent") {
            Some(j) => j.as_signed(),
            None => None,
        },
        None => None,
    };
    let individual = match left {
        Some(left) => left > 0,
        None => true,
    };
    (primary.0 || secondary.0) && primary.1 && secondary.1 && !spent && snapshot.lacks(
        "rateLimitReachedType",
    ) && individual
}

/// The position of the first identity of a thread.
pub fn find_identity(list: &Vec<SessionIdentity>, thread: &str) -> (r: Option<usize>)
    ensures
        r is Some <==> identity_of(identity::personas(list@), thread@) is Some,
        r matches Some(i) ==> i < list@.len() && identity_of(identity::personas(list@), thread@)
            == Some(list@[i as int]@),
{
    let ghost all = identity::personas(list@);
    let mut found: Option<usize> = None;
    let mut i: usize = 0;
    assert(all.take(0) =~= Seq::empty());
    while i < list.len()
        invariant
            i <= list@.len(),
            all == identity::personas(list@),
            found is Some <==> identity_of(all.take(i as int), thread@) is Some,
            found matches Some(k) ==> k < list@.len() && identity_of(all.take(i as int), thread@)
                == Some(list@[k as int]@),
        decreases list@.len() - i,
    {
        assert(all.take(i + 1).drop_last() == all.take(i as int));
        assert(all.take(i + 1).last() == list@[i as int]@);
        if found.is_none() && same(&list[i].thread_id, thread) {
            found = Some(i);
        }
        i += 1;
    }
    assert(all.take(all.len() as int) == all);
    found
}

proof fn lemma_least_view(
    raw: Map<Seq<char>, Record>,
    m: Map<Seq<char>, Kept>,
    rank: spec_fn(Seq<char>, Kept) -> Option<u128>,
    k: Seq<char>,
)
    requires
        m == records_view(raw),
        table::is_least(raw, |k: Seq<char>, record: Record| rank(k, record@), k),
    ensures
        table::is_least(m, rank, k),
{
    assert forall|other: Seq<char>| #[trigger] m.contains_key(other) implies (rank(
        other,
        m[other],
    ) matches Some(at) ==> rank(k, m[k])->0 <= at) by {
        assert(raw.contains_key(other));
    }
}

pub open spec fn thread_params(thread: Seq<char>) -> Map<Seq<char>, Tree> {
    Map::empty().insert("threadId"@, Tree::Text(thread))
}

/// What is asked of the thread manager, if anything: the method and its parameters.
pub open spec fn asked(order: Order) -> Option<(Seq<char>, Tree)> {
    match order {
        Order::Unsubscribe(t) => Some(("thread/unsubscribe"@, Tree::Object(thread_params(t)))),
        Order::Delete(t) => Some(("thread/delete"@, Tree::Object(thread_params(t)))),
        Order::Resume(t) | Order::ResumeLater(t) => Some(
            (
                "thread/resume"@,
                Tree::Object(thread_params(t).insert("excludeTurns"@, Tree::Bool(true))),
            ),
        ),
        Order::Start => Some(
            (
                "thread/start"@,
                Tree::Object(
                    Map::empty().insert("ephemeral"@, Tree::Bool(false)).insert(
                        "historyMode"@,
                        Tree::Text("legacy"@),
                    ).insert("environments"@, Tree::Array(Seq::empty())),
                ),
            ),
        ),
        Order::Name(t) => Some(
            (
                "thread/name/set"@,
                Tree::Object(thread_params(t).insert("name"@, Tree::Text("Worker conversation"@))),
            ),
        ),
        _ => None,
    }
}

fn thread_json(thread: &String) -> (r: Json)
    ensures
        r@ == Tree::Object(thread_params(thread@)),
{
    let mut r = Json::object();
    r.set("threadId".to_owned(), Json::Text(thread.clone()));
    r
}

impl Action {
    /// What is asked of the thread manager, if anything: the method and its parameters. A list
    /// of identities comes in pages and is asked for elsewhere.
    pub fn request(&self) -> (r: Option<(String, Json)>)
        ensures
            match r {
                Some((method, params)) => asked(self@) == Some((method@, params@)),
                None => asked(self@) is None,
            },
    {
        match self {
            Action::Unsubscribe(t) => Some(("thread/unsubscribe".to_owned(), thread_json(t))),
            Action::Delete(t) => Some(("thread/delete".to_owned(), thread_json(t))),
            Action::Resume(t) | Action::ResumeLater(t) => {
                let mut params = thread_json(t);
                params.set("excludeTurns".to_owned(), Json::Bool(true));
                Some(("thread/resume".to_owned(), params))
            },
            Action::Start => {
                let mut params = Json::object();
                params.set("ephemeral".to_owned(), Json::Bool(false));
                params.set("historyMode".to_owned(), Json::Text("legacy".to_owned()));
                params.set("environments".to_owned(), Json::Array(Vec::new()));
                Some(("thread/start".to_owned(), params))
            },
            Action::Name(t) => {
                let mut params = thread_json(t);
                params.set("name".to_owned(), Json::Text("Worker conversation".to_owned()));
                Some(("thread/name/set".to_owned(), params))
            },
            _ => None,
        }
    }
}

/// Whether what is about to be kept is what the conversation had before.
pub open spec fn faithful(p: Progress) -> bool {
    p.stage matches Phase::Saving(i) ==> p.prior is None || p.prior == Some(i)
}

/// A conversation that goes on does so under the identity it had before: whatever the thread
/// manager answers, an acquisition ends with that identity or fails.
pub proof fn law_identity_never_changes(
    r: Registry,
    p: Progress,
    answer: Answer,
    instant: u128,
    r2: Registry,
    p2: Progress,
    order: Order,
)
    requires
        faithful(p),
        advanced(r, p, answer, instant, r2, p2, order),
    ensures
        faithful(p2),
        p2.prior == p.prior,
        p2.key == p.key,
        order matches Order::Finish(i) ==> p.prior is None || p.prior == Some(i),
{
}

/// A conversation whose last request may still run, whose record belongs to another account or
/// is too old never goes on; where the request needs what came before it is told so.
pub proof fn law_lost_bindings_are_refused(
    r: Registry,
    key: Seq<char>,
    account: Seq<char>,
    now: u64,
)
    requires
        r.account is None || r.account == Some(account),
        !r.records.contains_key(key) || r.records[key].invalid || r.records[key].account != account
            || outdated(r.records[key], now),
    ensures
        usable(r, key, account, now) is None,
        refusal(r, key, Continuation::RequiresIdentity, account, now) == Some(Failure::BindingLost),
{
}

/// An outcome that is unknown invalidates the conversation, and it can have its binding back
/// only after its local request is known to have ended.
pub proof fn law_unknown_outcome_blocks_recovery(
    r: Registry,
    key: Seq<char>,
    account: Seq<char>,
    now: u64,
)
    requires
        r.records.contains_key(key),
    ensures
        ({
            let after = invalidated(r, r.records[key].identity.thread_id, false);
            &&& usable(after, key, account, now) is None
            &&& restoring(after, key, account) is Some
        }),
{
}

/// A conversation that is found to be unknown at a start keeps its identity and cannot go on,
/// and still so after every later start, whatever is unknown then.
pub proof fn law_invalidation_outlasts_restarts(
    m: Map<Seq<char>, Kept>,
    unknown: Seq<Seq<char>>,
    later: Seq<Seq<char>>,
    key: Seq<char>,
    active: Option<Seq<char>>,
    capacity: usize,
    idle_ttl: u128,
    account: Seq<char>,
    now: u64,
)
    requires
        m.contains_key(key),
        unknown.contains(key),
    ensures
        ({
            let once = suspected(m, unknown);
            let twice = suspected(once, later);
            &&& once.contains_key(key) && once[key].identity == m[key].identity && once[key].invalid
            &&& twice.contains_key(key) && twice[key].identity == m[key].identity
                && twice[key].invalid
            &&& usable(reopened(active, twice, capacity, idle_ttl), key, account, now) is None
        }),
{
}

/// Giving a binding back can be repeated: the second time changes nothing.
pub proof fn law_recovery_is_idempotent(r: Registry, key: Seq<char>, list: Seq<Persona>)
    ensures
        rebound(rebound(r, key, list), key, list) == rebound(r, key, list),
        rebinding(rebound(r, key, list), key, list) == rebinding(r, key, list),
{
    let once = rebound(r, key, list);
    assert(rebound(once, key, list).records =~= once.records);
}

/// Whether the threads that are loaded, and one more where one is about to be, are within the
/// capacity.
pub open spec fn fits(r: Registry, p: Progress) -> bool {
    &&& r.loaded.dom().finite()
    &&& r.loaded.dom().len() <= r.capacity
    &&& match p.stage {
        Phase::Unloading(t) => r.loaded.contains_key(t),
        Phase::Deleting(_, _) | Phase::Deleted => !overfull(r, p.prior),
        Phase::Resuming(_, _) | Phase::Starting => r.loaded.dom().len() < r.capacity,
        Phase::Naming(t) | Phase::Listing(t) => r.loaded.contains_key(t),
        Phase::Saving(i) => r.loaded.contains_key(i.thread_id),
        Phase::Finished => true,
    }
}

proof fn lemma_identity_of(list: Seq<Persona>, thread: Seq<char>)
    ensures
        identity_of(list, thread) matches Some(i) ==> i.thread_id == thread && list.contains(i),
    decreases list.len(),
{
    if list.len() > 0 {
        lemma_identity_of(list.drop_last(), thread);
        if let Some(i) = identity_of(list.drop_last(), thread) {
            let k = choose|k: int| 0 <= k < list.drop_last().len() && list.drop_last()[k] == i;
            assert(list[k] == i);
        } else {
            assert(list[list.len() - 1] == list.last());
        }
    }
}

/// An acquisition starts with no more threads loaded than there is capacity for, and with the
/// identity that the conversation had before.
pub proof fn law_acquisition_starts_within_capacity(
    r: Registry,
    key: Seq<char>,
    continuation: Continuation,
    account: Seq<char>,
    now: u64,
    instant: u128,
    r2: Registry,
    p2: Progress,
    order: Order,
)
    requires
        r.loaded.dom().finite(),
        r.loaded.dom().len() <= r.capacity,
        begun(r, key, continuation, account, now, instant, r2, p2, order),
    ensures
        fits(r2, p2),
        faithful(p2),
        p2.prior == usable(r, key, account, now),
{
    if let Phase::Listing(thread) = p2.stage {
        assert(r2.loaded.dom() =~= r.loaded.dom());
    }
}

/// Whatever the thread manager answers, no more threads are loaded than there is capacity for.
pub proof fn law_loaded_within_capacity(
    r: Registry,
    p: Progress,
    answer: Answer,
    instant: u128,
    r2: Registry,
    p2: Progress,
    order: Order,
)
    requires
        fits(r, p),
        advanced(r, p, answer, instant, r2, p2, order),
    ensures
        fits(r2, p2),
{
    if let (Phase::Listing(thread), Answer::Identities(list)) = (p.stage, answer) {
        lemma_identity_of(list, thread);
    }
    match (p.stage, answer) {
        (Phase::Unloading(thread), Answer::Done) => {
            let unloaded = r.loaded.remove(thread);
            assert(unloaded.dom() =~= r.loaded.dom().remove(thread));
            if p2.stage is Listing {
                assert(r2.loaded.dom() =~= unloaded.dom());
            }
        },
        (Phase::Deleted, Answer::Done) => {
            if p2.stage is Listing {
                assert(r2.loaded.dom() =~= r.loaded.dom());
            }
        },
        (Phase::Resuming(thread, _), Answer::Done) => {
            assert(r2.loaded.dom() =~= r.loaded.dom().insert(thread));
        },
        (Phase::Starting, Answer::Reply(reply)) => {
            if let Some(thread) = new_thread(reply) {
                assert(r2.loaded.dom() =~= r.loaded.dom().insert(thread));
            }
        },
        (Phase::Naming(thread), Answer::Done) => {
            assert(r2.loaded.dom() =~= r.loaded.dom());
        },
        (Phase::Saving(i), Answer::Done) => {
            assert(r2.loaded.dom() =~= r.loaded.dom());
        },
        _ => {},
    }
}

/// A conversation goes on under the identity in its record exactly where that is of the same
/// account, was not invalidated, and was used within the last thirty days.
pub proof fn law_which_identity_goes_on(
    r: Registry,
    key: Seq<char>,
    account: Seq<char>,
    now: u64,
)
    ensures
        usable(r, key, account, now) is Some <==> r.records.contains_key(key)
            && r.records[key].account == account && !r.records[key].invalid && now
            < r.records[key].used_at + 2_592_000,
        usable(r, key, account, now) matches Some(i) ==> i == r.records[key].identity,
{
}

/// An acquisition fails at once where, in this order, the account is another one, the request
/// needs an identity that is lost, the conversation's thread is in use, its lost identity is still
/// loaded, or as many threads as may be are loaded and each is in use. Otherwise it goes on.
pub proof fn law_why_an_acquisition_fails(
    r: Registry,
    key: Seq<char>,
    continuation: Continuation,
    account: Seq<char>,
    now: u64,
)
    ensures
        ({
            let f = refusal(r, key, continuation, account, now);
            let prior = usable(r, key, account, now);
            let moved = r.account is Some && r.account->0 != account;
            let lost = prior is None && continuation == Continuation::RequiresIdentity;
            let thread = prior->0.thread_id;
            let used = prior is Some && r.loaded.contains_key(thread) && r.loaded[thread] is None;
            let stale = prior is None && r.records.contains_key(key) && r.loaded.contains_key(
                r.records[key].identity.thread_id,
            );
            let full = r.loaded.dom().len() >= r.capacity && !(prior is Some
                && r.loaded.contains_key(thread)) && forall|t: Seq<char>| #[trigger]
                r.loaded.contains_key(t) ==> r.loaded[t] is None;
            &&& f == Some(Failure::AccountChanged) <==> moved
            &&& f == Some(Failure::BindingLost) <==> !moved && (lost || (!used && stale))
            &&& f == Some(Failure::Leased) <==> !moved && !lost && used
            &&& f == Some(Failure::Full) <==> !moved && !lost && !used && !stale && full
            &&& f is None <==> !moved && !lost && !used && !stale && !full
        }),
{
}

/// What an acquisition that does not fail at once begins with: where as many threads as may be are
/// loaded, one that is idle is unloaded first, and no other has been idle for longer. It belongs to
/// the account from then on.
pub proof fn law_who_makes_room(
    r: Registry,
    key: Seq<char>,
    continuation: Continuation,
    account: Seq<char>,
    now: u64,
    instant: u128,
    r2: Registry,
    p2: Progress,
    order: Order,
    other: Seq<char>,
)
    requires
        begun(r, key, continuation, account, now, instant, r2, p2, order),
    ensures
        order matches Order::Unsubscribe(t) ==> {
            &&& r.loaded.dom().len() >= r.capacity
            &&& r.loaded.contains_key(t) && r.loaded[t] is Some
            &&& r.loaded.contains_key(other) && r.loaded[other] is Some ==> r.loaded[t]->0
                <= r.loaded[other]->0
            &&& p2.stage == Phase::Unloading(t)
            &&& r2.loaded == r.loaded
        },
        refusal(r, key, continuation, account, now) matches Some(f) ==> order == Order::Fail(f)
            && r2.loaded == r.loaded && r2.records == r.records,
        refusal(r, key, continuation, account, now) is None && r.loaded.dom().len() >= r.capacity
            && (p2.prior is None || !r.loaded.contains_key(p2.prior->0.thread_id))
            ==> order is Unsubscribe,
        p2.key == key && p2.account == account && p2.now == now,
        p2.prior == usable(r, key, account, now),
        r2.records == r.records && r2.capacity == r.capacity && r2.idle_ttl == r.idle_ttl,
        r.account is Some ==> r2.account == r.account,
        r.account is None ==> r2.account == Some(account),
{
    if order is Unsubscribe {
        if refusal(r, key, continuation, account, now) is None && overfull(
            r,
            usable(r, key, account, now),
        ) {
            let t = choose|t: Seq<char>|
                {
                    &&& #[trigger] table::is_least(r.loaded, idle_rank(), t)
                    &&& order == Order::Unsubscribe(t)
                    &&& p2 == (Progress {
                        stage: Phase::Unloading(t),
                        key,
                        account,
                        now,
                        prior: usable(r, key, account, now),
                    })
                };
            assert(table::is_least(r.loaded, idle_rank(), t));
        } else {
            lemma_cleaned(
                claimed(r, account),
                Progress {
                    key,
                    account,
                    now,
                    prior: usable(r, key, account, now),
                    stage: Phase::Finished,
                },
                instant,
                p2,
                order,
                other,
            );
        }
    }
}

/// A record can be deleted: its thread is not loaded, and it is the conversation's own where that
/// cannot go on, or was not used for thirty days, or 4096 are kept and the conversation needs a
/// new one.
pub open spec fn can_go(r: Registry, p: Progress, k: Seq<char>) -> bool {
    &&& r.records.contains_key(k)
    &&& !r.loaded.contains_key(r.records[k].identity.thread_id)
    &&& {
        ||| (k == p.key && p.prior is None)
        ||| p.now >= r.records[k].used_at + 2_592_000
        ||| (!r.records.contains_key(p.key) && r.records.dom().len() >= 4096)
    }
}

proof fn lemma_can_go(r: Registry, p: Progress, k: Seq<char>)
    requires
        r.records.contains_key(k),
    ensures
        can_go(r, p, k) <==> (obsolete_rank(r, p))(k, r.records[k]) is Some,
{
}

proof fn lemma_cleaned(
    r: Registry,
    p: Progress,
    instant: u128,
    after: Progress,
    order: Order,
    other: Seq<char>,
)
    requires
        cleaned(r, p, instant, after, order),
    ensures
        !(order is Unsubscribe),
        order is Delete ==> (after.stage matches Phase::Deleting(k, t) && order == Order::Delete(t)
            && can_go(r, p, k) && t == r.records[k].identity.thread_id && (can_go(r, p, other)
            && other != k ==> k == p.key || (other != p.key && r.records[k].used_at
            <= r.records[other].used_at))),
        can_go(r, p, other) ==> order is Delete,
        !(order is Delete) ==> (after, order) == opened(r, p, instant),
        after == (Progress { stage: after.stage, ..p }),
{
    let rank = obsolete_rank(r, p);
    if r.records.contains_key(other) {
        lemma_can_go(r, p, other);
    }
    if forall|k: Seq<char>| #[trigger] r.records.contains_key(k) ==> rank(k, r.records[k]) is None {
    } else {
        let k = choose|k: Seq<char>|
            {
                &&& #[trigger] table::is_least(r.records, rank, k)
                &&& order == Order::Delete(r.records[k].identity.thread_id)
                &&& after == (Progress {
                    stage: Phase::Deleting(k, r.records[k].identity.thread_id),
                    ..p
                })
            };
        assert(table::is_least(r.records, rank, k));
        lemma_can_go(r, p, k);
        if can_go(r, p, other) && other != k {
            assert(r.records.contains_key(other));
            assert(rank(k, r.records[k])->0 <= rank(other, r.records[other])->0);
        }
    }
}

/// Before a thread is had, a record that can go is deleted: the conversation's own before others,
/// and of those one that was not used for the longest time. None is deleted that cannot go, and
/// where one can, one is.
pub proof fn law_which_record_is_deleted(
    r: Registry,
    p: Progress,
    instant: u128,
    after: Progress,
    order: Order,
    other: Seq<char>,
)
    requires
        cleaned(r, p, instant, after, order),
    ensures
        order is Delete ==> (after.stage matches Phase::Deleting(k, t) && order == Order::Delete(t)
            && can_go(r, p, k) && t == r.records[k].identity.thread_id && (can_go(r, p, other)
            && other != k ==> k == p.key || (other != p.key && r.records[k].used_at
            <= r.records[other].used_at))),
        can_go(r, p, other) ==> order is Delete,
        after == (Progress { stage: after.stage, ..p }),
{
    lemma_cleaned(r, p, instant, after, order, other);
}

/// A conversation's thread is had by starting a new one where it has none; its own is used where
/// it is loaded and resumed where it is not, for five seconds at most. With 4096 records and none
/// of its own it is turned away.
pub proof fn law_how_a_thread_is_had(r: Registry, p: Progress, instant: u128)
    requires
        instant + 5_000_000_000 <= LAST_INSTANT,
    ensures
        ({
            let (after, order) = opened(r, p, instant);
            let full = !r.records.contains_key(p.key) && r.records.dom().len() >= 4096;
            &&& after == (Progress { stage: after.stage, ..p })
            &&& full ==> order == Order::Fail(Failure::Full) && after.stage is Finished
            &&& !full && p.prior is None ==> order is Start && after.stage is Starting
            &&& !full && p.prior is Some && r.loaded.contains_key(p.prior->0.thread_id) ==> order
                is List && after.stage == Phase::Listing(p.prior->0.thread_id)
            &&& !full && p.prior is Some && !r.loaded.contains_key(p.prior->0.thread_id) ==> order
                == Order::Resume(p.prior->0.thread_id) && after.stage == Phase::Resuming(
                p.prior->0.thread_id,
                (instant + 5_000_000_000) as u128,
            )
        }),
{
}

/// An acquisition that fails on an answer has changed nothing.
pub proof fn law_failures_change_nothing(
    r: Registry,
    p: Progress,
    answer: Answer,
    instant: u128,
    r2: Registry,
    p2: Progress,
    order: Order,
)
    requires
        advanced(r, p, answer, instant, r2, p2, order),
        !(p.stage is Unloading),
        order is Fail,
    ensures
        r2 == r,
        p2.stage is Finished,
        answer is Failed ==> order == Order::Fail(Failure::Outside),
{
}

/// A record is given up once its thread is deleted, or where the thread manager says that it is
/// gone; any other refusal ends the acquisition.
pub proof fn law_when_a_record_is_given_up(
    r: Registry,
    p: Progress,
    answer: Answer,
    instant: u128,
    r2: Registry,
    p2: Progress,
    order: Order,
    key: Seq<char>,
    thread: Seq<char>,
)
    requires
        advanced(r, p, answer, instant, r2, p2, order),
        p.stage == Phase::Deleting(key, thread),
    ensures
        ({
            let gone = answer matches Answer::Failed(code, message) && code == Some(-32600i64)
                && message == "thread not found: "@ + thread;
            &&& answer is Done || gone ==> {
                &&& r2.records == r.records.remove(key)
                &&& r2.loaded == r.loaded
                &&& order is Save && p2.stage is Deleted
            }
            &&& !(answer is Done) && !gone ==> order is Fail
        }),
{
}

/// A thread that is closing is asked again until its time is over; once it is resumed it is loaded
/// and idle.
pub proof fn law_how_a_thread_is_resumed(
    r: Registry,
    p: Progress,
    answer: Answer,
    instant: u128,
    r2: Registry,
    p2: Progress,
    order: Order,
    thread: Seq<char>,
    deadline: u128,
)
    requires
        advanced(r, p, answer, instant, r2, p2, order),
        p.stage == Phase::Resuming(thread, deadline),
    ensures
        ({
            let closing = answer matches Answer::Failed(code, message) && code == Some(-32600i64)
                && text::occurs(message, "is closing; retry"@);
            &&& answer is Done ==> order is List && p2.stage == Phase::Listing(thread)
                && r2.loaded == r.loaded.insert(thread, Some(instant)) && r2.records == r.records
            &&& closing && instant < deadline ==> order == Order::ResumeLater(thread) && p2 == p
                && r2 == r
            &&& !(answer is Done) && !(closing && instant < deadline) ==> order is Fail
        }),
{
}

/// A new thread is loaded under the identifier that it comes with, and then named; one that comes
/// without is refused.
pub proof fn law_how_a_thread_is_started(
    r: Registry,
    p: Progress,
    reply: Tree,
    instant: u128,
    r2: Registry,
    p2: Progress,
    order: Order,
)
    requires
        advanced(r, p, Answer::Reply(reply), instant, r2, p2, order),
        p.stage is Starting,
    ensures
        reply.at("thread"@).at("id"@) matches Tree::Text(thread) ==> order == Order::Name(thread)
            && p2.stage == Phase::Naming(thread) && r2.loaded == r.loaded.insert(
            thread,
            Some(instant),
        ) && r2.records == r.records,
        !(reply.at("thread"@).at("id"@) is Text) ==> order == Order::Fail(Failure::MissingThread),
{
}

/// The identity of a thread is the first in the list that is of it. Where it is the one from
/// before, or there was none, it is recorded for the account as used now and as valid; and once
/// that is saved the thread is in use and the acquisition is over.
pub proof fn law_how_an_identity_is_had(
    r: Registry,
    p: Progress,
    list: Seq<Persona>,
    instant: u128,
    r2: Registry,
    p2: Progress,
    order: Order,
    thread: Seq<char>,
    i: int,
)
    requires
        advanced(r, p, Answer::Identities(list), instant, r2, p2, order),
        p.stage == Phase::Listing(thread),
    ensures
        (forall|k: int| 0 <= k < list.len() ==> (#[trigger] list[k]).thread_id != thread) ==> order
            == Order::Fail(Failure::NotLoaded),
        0 <= i < list.len() && list[i].thread_id == thread && (forall|e: int|
            0 <= e < i ==> (#[trigger] list[e]).thread_id != thread) ==> {
            &&& p.prior is Some && p.prior->0 != list[i] ==> order == Order::Fail(
                Failure::IdentityChanged,
            )
            &&& p.prior is None || p.prior->0 == list[i] ==> {
                &&& order is Save && p2.stage == Phase::Saving(list[i])
                &&& r2.loaded == r.loaded
                &&& r2.records == r.records.insert(
                    p.key,
                    Kept {
                        account: p.account,
                        identity: list[i],
                        used_at: p.now,
                        invalid: false,
                        recoverable: false,
                    },
                )
            }
        },
{
    lemma_identity_of(list, thread);
    if forall|k: int| 0 <= k < list.len() ==> (#[trigger] list[k]).thread_id != thread {
        if let Some(found) = identity_of(list, thread) {
            let k = choose|k: int| 0 <= k < list.len() && list[k] == found;
            assert(list[k].thread_id == thread);
        }
    }
    if 0 <= i < list.len() && list[i].thread_id == thread && (forall|e: int|
        0 <= e < i ==> (#[trigger] list[e]).thread_id != thread) {
        lemma_first_identity(list, thread, i);
    }
}

proof fn lemma_first_identity(list: Seq<Persona>, thread: Seq<char>, i: int)
    requires
        0 <= i < list.len(),
        list[i].thread_id == thread,
        forall|e: int| 0 <= e < i ==> (#[trigger] list[e]).thread_id != thread,
    ensures
        identity_of(list, thread) == Some(list[i]),
    decreases list.len(),
{
    let front = list.drop_last();
    if i < front.len() {
        assert forall|e: int| 0 <= e < i implies (#[trigger] front[e]).thread_id != thread by {
            assert(front[e] == list[e]);
        }
        lemma_first_identity(front, thread, i);
    } else {
        lemma_identity_of(front, thread);
        if let Some(found) = identity_of(front, thread) {
            let k = choose|k: int| 0 <= k < front.len() && front[k] == found;
            assert(list[k].thread_id == thread);
        }
    }
}

/// Once what is known is saved, the thread is in use and its identity is handed out.
pub proof fn law_how_an_acquisition_ends(
    r: Registry,
    p: Progress,
    instant: u128,
    r2: Registry,
    p2: Progress,
    order: Order,
    i: Persona,
)
    requires
        advanced(r, p, Answer::Done, instant, r2, p2, order),
        p.stage == Phase::Saving(i),
    ensures
        order == Order::Finish(i),
        p2.stage is Finished,
        r2.loaded == r.loaded.insert(i.thread_id, None),
        r2.records == r.records,
{
}

/// A thread whose request ended is idle from then on, where it is loaded; its conversation stays
/// as it is.
pub proof fn law_when_a_thread_is_idle(
    r: Registry,
    thread: Seq<char>,
    instant: u128,
    other: Seq<char>,
)
    ensures
        idled(r, thread, instant).records == r.records,
        idled(r, thread, instant).loaded.dom() == r.loaded.dom(),
        r.loaded.contains_key(thread) ==> idled(r, thread, instant).loaded[thread] == Some(instant),
        other != thread && r.loaded.contains_key(other) ==> idled(r, thread, instant).loaded[other]
            == r.loaded[other],
{
    assert(idled(r, thread, instant).loaded.dom() =~= r.loaded.dom());
}

/// An outcome that is not known invalidates exactly the conversations of the thread, and notes
/// whether its local request ended; identities and threads stay.
pub proof fn law_which_conversations_are_invalidated(
    r: Registry,
    thread: Seq<char>,
    recoverable: bool,
    key: Seq<char>,
)
    requires
        r.records.contains_key(key),
    ensures
        ({
            let after = invalidated(r, thread, recoverable);
            &&& after.loaded == r.loaded
            &&& after.records.contains_key(key)
            &&& r.records[key].identity.thread_id == thread ==> after.records[key] == (Kept {
                invalid: true,
                recoverable,
                ..r.records[key]
            })
            &&& r.records[key].identity.thread_id != thread ==> after.records[key]
                == r.records[key]
        }),
{
}

/// Taking over the conversations of an earlier run invalidates exactly those that may still run,
/// and changes nothing else of them.
pub proof fn law_which_conversations_are_suspected(
    m: Map<Seq<char>, Kept>,
    unknown: Seq<Seq<char>>,
    key: Seq<char>,
)
    ensures
        suspected(m, unknown).contains_key(key) <==> m.contains_key(key),
        m.contains_key(key) && unknown.contains(key) ==> suspected(m, unknown)[key] == (Kept {
            invalid: true,
            ..m[key]
        }),
        m.contains_key(key) && !unknown.contains(key) ==> suspected(m, unknown)[key] == m[key],
{
}

/// A thread is unloaded once it has been idle for the time that is set; one in use never is.
pub proof fn law_when_a_thread_expires(r: Registry, thread: Seq<char>, instant: u128)
    ensures
        is_expired(r, thread, instant) <==> r.loaded.contains_key(thread) && r.loaded[thread]
            is Some && (r.idle_ttl == 0 || instant >= r.loaded[thread]->0 + r.idle_ttl),
{
}

/// A conversation can have its binding back where the account is still the same, there is a
/// record, its local request ended, and its thread is not in use.
pub proof fn law_when_a_binding_can_be_restored(r: Registry, key: Seq<char>, account: Seq<char>)
    ensures
        ({
            let f = restoring(r, key, account);
            let ours = r.account is Some && r.account->0 == account;
            let known = r.records.contains_key(key);
            let thread = r.records[key].identity.thread_id;
            let used = r.loaded.contains_key(thread) && r.loaded[thread] is None;
            &&& f == Some(Failure::AccountChanged) <==> !ours
            &&& f == Some(Failure::BindingLost) <==> ours && !known
            &&& f == Some(Failure::NotTerminated) <==> ours && known && !r.records[key].recoverable
            &&& f == Some(Failure::Leased) <==> ours && known && r.records[key].recoverable && used
            &&& f is None <==> ours && known && r.records[key].recoverable && !used
        }),
{
}

/// A binding is given back exactly where the record's identity is among those that are loaded; the
/// conversation can then go on, and nothing else changes.
pub proof fn law_how_a_binding_is_restored(
    r: Registry,
    key: Seq<char>,
    list: Seq<Persona>,
    other: Seq<char>,
)
    ensures
        ({
            let known = r.records.contains_key(key);
            let there = exists|i: int|
                0 <= i < list.len() && #[trigger] list[i] == r.records[key].identity;
            let after = rebound(r, key, list);
            &&& rebinding(r, key, list) is Ok <==> known && there
            &&& rebinding(r, key, list) == Err::<(), Failure>(Failure::BindingLost) <==> !known
            &&& rebinding(r, key, list) == Err::<(), Failure>(Failure::IdentityChanged) <==> known
                && !there
            &&& known && there ==> after.records[key] == (Kept { invalid: false, ..r.records[key] })
            &&& other != key ==> (after.records.contains_key(other)
                <==> r.records.contains_key(other)) && after.records[other] == r.records[other]
            &&& after == (Registry { records: after.records, ..r })
            &&& !(known && there) ==> after == r
        }),
{
}

/// A window leaves room where it says a share that is not below zero and less than one hundred.
pub open spec fn leaves_room(window: Tree) -> bool {
    window.at("usedPercent"@).bits() matches Some(bits) && (bits < 0x4059_0000_0000_0000 || bits
        == 0x8000_0000_0000_0000)
}

/// Limits leave room for another request exactly where they are of this account, at least one
/// window is known, every known one leaves room, no spending limit and no other limit is reached,
/// and something is left of the account's own.
pub proof fn law_when_limits_leave_room(account: Option<Seq<char>>, limits: Tree)
    ensures
        ({
            let v = limits_verdict(account, limits);
            let s = limits.at("rateLimits"@);
            let moved = limits.at("accountId"@) is Text && account != Some(
                digest::pair_digest("chatgpt"@, limits.at("accountId"@)->Text_0),
            );
            let own = s.at("individualLimit"@).at("remainingPercent"@).signed();
            let room = {
                &&& s.at("primary"@) is Object || s.at("secondary"@) is Object
                &&& s.at("primary"@) is Object ==> leaves_room(s.at("primary"@))
                &&& s.at("secondary"@) is Object ==> leaves_room(s.at("secondary"@))
                &&& s.at("spendControlReached"@) != Tree::Bool(true)
                &&& s.at("rateLimitReachedType"@) is Null
                &&& own is None || own->0 > 0
            };
            &&& v == Err::<(), Failure>(Failure::AccountChanged) <==> moved
            &&& v == Err::<(), Failure>(Failure::LimitsExhausted) <==> !moved && !room
            &&& v is Ok <==> !moved && room
        }),
{
}

/// What the thread manager is asked names the thread that it is about, and a thread that is
/// started is one that lasts.
pub proof fn law_what_the_thread_manager_is_asked(t: Seq<char>)
    ensures
        asked(Order::Unsubscribe(t)) matches Some((method, params)) && method
            == "thread/unsubscribe"@ && params.at("threadId"@) == Tree::Text(t),
        asked(Order::Delete(t)) matches Some((method, params)) && method == "thread/delete"@
            && params.at("threadId"@) == Tree::Text(t),
        asked(Order::Resume(t)) matches Some((method, params)) && method == "thread/resume"@
            && params.at("threadId"@) == Tree::Text(t) && params.at("excludeTurns"@) == Tree::Bool(
            true,
        ),
        asked(Order::ResumeLater(t)) == asked(Order::Resume(t)),
        asked(Order::Name(t)) matches Some((method, params)) && method == "thread/name/set"@
            && params.at("threadId"@) == Tree::Text(t) && params.at("name"@) == Tree::Text(
            "Worker conversation"@,
        ),
        asked(Order::Start) matches Some((method, params)) && method == "thread/start"@
            && params.at("ephemeral"@) == Tree::Bool(false) && params.at("historyMode"@)
            == Tree::Text("legacy"@) && params.at("environments"@) == Tree::Array(Seq::empty()),
        asked(Order::List) is None && asked(Order::Save) is None,
{
    reveal_strlit("threadId");
    reveal_strlit("excludeTurns");
    reveal_strlit("name");
    reveal_strlit("ephemeral");
    reveal_strlit("historyMode");
    reveal_strlit("environments");
    assert("threadId"@.len() == 8 && "excludeTurns"@.len() == 12 && "name"@.len() == 4
        && "ephemeral"@.len() == 9 && "historyMode"@.len() == 11 && "environments"@.len() == 12);
}

/// Once a thread is unloaded it is no longer loaded, and the acquisition goes on as one for which
/// there was room; so it does once obsolete records are deleted and that is saved. A thread that
/// was named is looked up among the identities.
pub proof fn law_how_an_acquisition_goes_on(
    r: Registry,
    p: Progress,
    instant: u128,
    r2: Registry,
    p2: Progress,
    order: Order,
    thread: Seq<char>,
)
    requires
        advanced(r, p, Answer::Done, instant, r2, p2, order),
    ensures
        p.stage == Phase::Unloading(thread) ==> {
            &&& cleaned(
                Registry { loaded: r.loaded.remove(thread), ..r },
                p,
                instant,
                p2,
                order,
            )
            &&& r2.loaded.contains_key(thread) ==> p2.stage == Phase::Listing(thread)
            &&& r2.records == r.records
        },
        p.stage is Deleted ==> (p2, order) == opened(r, p, instant) && r2.records == r.records,
        p.stage == Phase::Naming(thread) ==> order is List && p2.stage == Phase::Listing(thread)
            && r2.loaded == r.loaded.insert(thread, Some(instant)) && r2.records == r.records,
        p2.stage matches Phase::Listing(t) ==> r2.loaded.contains_key(t) && r2.loaded[t] == Some(
            instant,
        ),
        p2.stage is Starting || p2.stage is Resuming ==> (p.stage is Unloading || r2.loaded
            == r.loaded),
{
}

/// Conversations of an earlier run are taken over from a file of the first version, of four
/// mebibytes at most, with 4096 records at most.
pub proof fn law_which_conversations_are_taken_over(version: u8, size: usize, records: nat)
    ensures
        is_restorable(version, size, records) <==> version == 1 && size <= 4_194_304 && records
            <= 4096,
{
}

/// A thread whose request ended well is idle again and its conversation can go on. One whose
/// request ended in any other way keeps its lease and its conversation cannot go on; it can have
/// its binding back only where the local request is known to have ended.
pub proof fn law_how_a_lease_ends(
    r: Registry,
    key: Seq<char>,
    outcome: Outcome,
    instant: u128,
    account: Seq<char>,
    now: u64,
)
    requires
        r.records.contains_key(key),
    ensures
        ({
            let thread = r.records[key].identity.thread_id;
            let after = released(r, thread, outcome, instant);
            &&& after.records.contains_key(key)
            &&& outcome == Outcome::Released ==> after.records == r.records && (
            r.loaded.contains_key(thread) ==> after.loaded[thread] == Some(instant))
            &&& outcome != Outcome::Released ==> after.loaded == r.loaded && usable(
                after,
                key,
                account,
                now,
            ) is None && after.records[key].identity == r.records[key].identity
            &&& outcome == Outcome::Recoverable ==> after.records[key].recoverable
            &&& outcome == Outcome::Unknown ==> !after.records[key].recoverable
        }),
{
}

/// A thread whose local request is known to have ended is idle once that is saved; one of which it
/// is not known keeps its lease.
pub proof fn law_when_a_lease_is_given_back(
    r: Registry,
    thread: Seq<char>,
    outcome: Outcome,
    instant: u128,
)
    requires
        r.loaded.contains_key(thread),
    ensures
        outcome == Outcome::Recoverable ==> settled(r, thread, outcome, instant).loaded
            == r.loaded.insert(thread, Some(instant)),
        outcome != Outcome::Recoverable ==> settled(r, thread, outcome, instant) == r,
        settled(r, thread, outcome, instant).records == r.records,
{
}

} // verus!
