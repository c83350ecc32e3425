//! Bounded admission and waiting; all eligibility gates are checked on one state.
use crate::clock;
use crate::clock::checked_after;
use crate::clock::max_of;
use crate::clock::saturating_second;
use crate::clock::seconds_of;
use crate::clock::since;
use crate::clock::LAST_INSTANT;
use crate::clock::SECOND;
use crate::digest;
use crate::digest::digest_pair;
use crate::journal;
use crate::journal::Journal;
use crate::journal::Ledger;
use crate::json::Json;
use crate::json::Quantity;
use crate::json::Tree;
use crate::rejection::Rejection;
use crate::scheduler;
use crate::scheduler::find_id;
use crate::scheduler::find_key;
use crate::scheduler::gap;
use crate::scheduler::Attempt;
use crate::scheduler::Binding;
use crate::scheduler::Config;
use crate::scheduler::Key;
use crate::scheduler::Pending;
use crate::scheduler::Plan;
use crate::scheduler::State;
use crate::scheduler::Timing;
use crate::scheduler::Waiting;
use crate::scheduler::MAX_BODY;
use crate::scheduler::MAX_PENDING;
use crate::scheduler::MAX_RESIDENT;
use crate::signals;
use crate::signals::Evidence;
use crate::signals::EvidenceView;
use crate::signals::Kind;
use crate::signals::Observation;
use crate::signals::Signals;
use crate::signals::SignalsView;
use crate::table;
use crate::table::Label;
use crate::table::Table;
use crate::text;
use crate::text::list_contains;
use crate::text::same;
use crate::throttle::Throttle;
use vstd::prelude::*;

verus! {

broadcast use {
    vstd::seq_lib::group_seq_properties,
    vstd::map::group_map_axioms,
    vstd::set::group_set_axioms,
};

/// How many conversations' timing is kept.
pub const MAX_BINDINGS: usize = 1024;

/// How many bytes of request bodies may wait.
pub const MAX_WAITING_BYTES: u128 = 67_108_864;

/// How many requests of one conversation may wait.
pub const MAX_PER_CONVERSATION: usize = 2;

/// How many requests of one tenant may wait.
pub const MAX_PER_TENANT: usize = 8;

/// How many cancellations are remembered.
pub const MAX_CANCELLED: usize = 128;

/// How long a cancellation is remembered.
pub const CANCELLED_FOR: u128 = 60_000_000_000;

/// A place in the queue.
#[derive(Debug)]
pub struct Ticket {
    pub id: String,
    pub key: Key,
    pub deadline: u128,
}

/// The right to dispatch a request.
#[derive(Debug)]
pub struct Lease {
    pub id: String,
    pub key: Key,
    pub fingerprint: String,
    pub evidence: Evidence,
    pub deadline: u128,
}

/// What a waiting request is to do.
#[derive(Debug)]
pub enum Turn {
    Rejected(Rejection),
    Start(Lease),
    /// Ask again when the state has changed, and at this instant at the latest.
    Wait(u128),
}

/// What a cancellation meets.
#[derive(Clone, Copy, Debug, PartialEq, Eq, Structural)]
pub enum Cancellation {
    /// The request runs and its attempt is to be ended.
    Finalize,
    /// The request runs without an attempt to end.
    Running,
    /// The request will not start within the next minute.
    Noted,
}

/// The request as it waits: under the digest of its tenant and identifier, with a deadline
/// no later than the longest wait.
pub open spec fn prepared(p: Waiting, c: Config, now: u128) -> Waiting {
    Waiting {
        id: digest::pair_digest(p.key.0, p.id),
        deadline: if p.deadline <= now + c.timeout {
            p.deadline
        } else {
            (now + c.timeout) as u128
        },
        ..p
    }
}

pub open spec fn longest_gap(c: Config) -> u128 {
    clock::larger(clock::larger(c.gap, c.user_gap), c.tool_gap)
}

/// Whether nothing of a conversation runs or waits.
pub open spec fn unused(
    running: Map<(Seq<char>, Seq<char>), Seq<char>>,
    pending: Seq<Waiting>,
    key: (Seq<char>, Seq<char>),
) -> bool {
    !running.contains_key(key) && !scheduler::has_key(pending, key)
}

/// Whether a conversation has been idle for some time.
pub open spec fn idle_for(
    running: Map<(Seq<char>, Seq<char>), Seq<char>>,
    pending: Seq<Waiting>,
    key: (Seq<char>, Seq<char>),
    t: Timing,
    now: u128,
    time: u128,
) -> bool {
    (t.finished matches Some(at) && clock::elapsed(now, at) >= time) && unused(
        running,
        pending,
        key,
    )
}

/// The state without the timing of conversations that have been idle for long.
pub open spec fn retired(s: Plan, c: Config, now: u128) -> Plan {
    let limit = clock::larger(longest_gap(c), c.idle_ttl);
    Plan {
        bindings: table::kept(
            s.bindings,
            |k: (Seq<char>, Seq<char>), t: Timing| !idle_for(s.running, s.pending, k, t, now, limit),
        ),
        ..s
    }
}

/// When a conversation that could be forgotten had its last turn.
pub open spec fn idle_since(s: Plan, c: Config, now: u128) -> spec_fn(
    (Seq<char>, Seq<char>),
    Timing,
) -> Option<u128> {
    |k: (Seq<char>, Seq<char>), t: Timing|
        if idle_for(s.running, s.pending, k, t, now, longest_gap(c)) {
            t.finished
        } else {
            None
        }
}

/// Whether a new conversation needs another one to be forgotten.
pub open spec fn crowded(s: Plan, key: (Seq<char>, Seq<char>)) -> bool {
    s.bindings.dom().len() >= MAX_BINDINGS && !s.bindings.contains_key(key)
}

/// Whether a new conversation finds no room.
pub open spec fn no_room(s: Plan, c: Config, now: u128, key: (Seq<char>, Seq<char>)) -> bool {
    crowded(s, key) && forall|k: (Seq<char>, Seq<char>)| #[trigger]
        s.bindings.contains_key(k) ==> (idle_since(s, c, now))(k, s.bindings[k]) is None
}

/// Whether the conversation that has been idle for the longest time makes room.
pub open spec fn room_made(
    s: Plan,
    c: Config,
    now: u128,
    key: (Seq<char>, Seq<char>),
    after: Map<(Seq<char>, Seq<char>), Timing>,
) -> bool {
    if crowded(s, key) {
        exists|k: (Seq<char>, Seq<char>)| #[trigger]
            table::is_least(s.bindings, idle_since(s, c, now), k) && after == s.bindings.remove(k)
    } else {
        after == s.bindings
    }
}

/// The fingerprint of the request that waits or runs under an identifier.
pub open spec fn known_fingerprint(s: Plan, id: Seq<char>) -> Option<Seq<char>> {
    match scheduler::position_of_id(s.pending, id) {
        Some(i) => Some(s.pending[i].fingerprint),
        None => if s.attempts.contains_key(id) {
            Some(s.attempts[id])
        } else {
            None
        },
    }
}

pub open spec fn total_bytes(list: Seq<Waiting>) -> nat
    decreases list.len(),
{
    if list.len() == 0 {
        0
    } else {
        total_bytes(list.drop_last()) + list.last().bytes as nat
    }
}

pub open spec fn of_key(list: Seq<Waiting>, key: (Seq<char>, Seq<char>)) -> Seq<Waiting> {
    list.filter(|p: Waiting| p.key == key)
}

pub open spec fn of_tenant(list: Seq<Waiting>, tenant: Seq<char>) -> Seq<Waiting> {
    list.filter(|p: Waiting| p.key.0 == tenant)
}

/// Why a request cannot wait.
pub open spec fn waiting_refusal(s: Plan, p: Waiting) -> Option<Rejection> {
    if s.cancelled.contains_key((p.key.0, p.id)) {
        Some(Rejection::Cancelled)
    } else if known_fingerprint(s, p.id) is Some {
        Some(
            if known_fingerprint(s, p.id) == Some(p.fingerprint) {
                Rejection::Duplicate
            } else {
                Rejection::Conflict
            },
        )
    } else if s.pending.len() >= MAX_PENDING || total_bytes(s.pending) + p.bytes
        > MAX_WAITING_BYTES {
        Some(Rejection::Full)
    } else if of_key(s.pending, p.key).len() >= MAX_PER_CONVERSATION || of_tenant(
        s.pending,
        p.key.0,
    ).len() >= MAX_PER_TENANT {
        Some(Rejection::Limited)
    } else {
        None
    }
}

pub open spec fn queued<A>(queue: Seq<A>, a: A) -> Seq<A> {
    if queue.contains(a) {
        queue
    } else {
        queue.push(a)
    }
}

/// The state with one more request that waits.
pub open spec fn joined(s: Plan, p: Waiting) -> Plan {
    Plan {
        tenants: queued(s.tenants, p.key.0),
        conversations: queued(s.conversations, p.key),
        pending: s.pending.push(p),
        ..s
    }
}

/// The state after finished requests were forgotten.
pub open spec fn recalled(s: Plan, wall: u64) -> Plan {
    Plan {
        journal: (Ledger { records: journal::remembered(s.journal.records, wall), ..s.journal }),
        ..s
    }
}

/// The state after cancellations were forgotten.
pub open spec fn uncancelled(s: Plan, now: u128) -> Plan {
    Plan {
        cancelled: table::kept(
            s.cancelled,
            |k: (Seq<char>, Seq<char>), expiry: u128| expiry > now,
        ),
        ..s
    }
}

pub open spec fn is_ticket(t: Ticket, p: Waiting) -> bool {
    t.id@ == p.id && t.key@ == p.key && t.deadline == p.deadline
}

/// What comes of a request that has room for its conversation's timing.
pub open spec fn enqueued(
    s: Plan,
    p: Waiting,
    now: u128,
    wall: u64,
    r: Result<Ticket, Rejection>,
    after: Plan,
) -> bool {
    let checked = recalled(s, wall);
    let ready = uncancelled(checked, now);
    match journal::refusal(checked.journal.records, p.id, p.fingerprint) {
        Some(e) => r == Err::<Ticket, Rejection>(e) && after == checked,
        None => match waiting_refusal(ready, p) {
            Some(e) => r == Err::<Ticket, Rejection>(e) && after == ready,
            None => (r matches Ok(t) && is_ticket(t, p)) && after == joined(ready, p),
        },
    }
}

/// The state with room reserved for one more request body.
pub open spec fn accepted(s: Plan, bytes: usize) -> Plan {
    Plan { inbound: (s.inbound + 1) as usize, bytes: (s.bytes + bytes) as usize, ..s }
}

/// The state with the room of a request body given back.
pub open spec fn discharged(s: Plan, bytes: usize) -> Plan {
    Plan { inbound: (s.inbound - 1) as usize, bytes: (s.bytes - bytes) as usize, ..s }
}

/// The state in which another number of requests may run at once.
pub open spec fn limited(s: Plan, limit: usize) -> Plan {
    Plan {
        max_running: limit,
        throttle: (Throttle {
            limit: if s.throttle.limit == s.max_running || s.throttle.limit > limit {
                limit
            } else {
                s.throttle.limit
            },
            ..s.throttle
        }),
        ..s
    }
}

pub open spec fn admits(s: Plan, c: Config, bytes: usize) -> Option<Rejection> {
    if bytes > MAX_BODY {
        Some(Rejection::TooLarge)
    } else if s.inbound >= MAX_PENDING + scheduler::configured_max(s, c) || s.bytes + bytes
        > MAX_RESIDENT {
        Some(Rejection::Full)
    } else {
        None
    }
}

/// Why a waiting request gives up.
pub open spec fn giving_up(
    s: Plan,
    c: Config,
    id: Seq<char>,
    key: (Seq<char>, Seq<char>),
    deadline: u128,
    now: u128,
) -> Option<Rejection> {
    if s.cancelled.contains_key((key.0, id)) {
        Some(Rejection::Cancelled)
    } else if s.paused || s.throttle.blocked {
        Some(Rejection::Paused)
    } else if s.throttle.until matches Some(until) && until > now && until >= deadline {
        Some(
            Rejection::Cooldown(
                clock::later_second(
                    clock::whole_seconds((s.throttle.until->0 - now) as u128),
                    1,
                ),
            ),
        )
    } else if s.uncertain || (!c.automatic_recovery && (s.quarantined.dom().len()
        >= scheduler::running_cap(s, c) || scheduler::isolated(s, key))) {
        Some(Rejection::Unavailable)
    } else if now >= deadline {
        Some(Rejection::Expired)
    } else {
        None
    }
}

/// The earlier of two instants, as far as the second is still to come.
pub open spec fn sooner(wake: u128, at: Option<u128>, now: u128) -> u128 {
    match at {
        Some(at) => if at > now && at < wake {
            at
        } else {
            wake
        },
        None => wake,
    }
}

/// When a conversation's gap ends for a waiting request.
pub open spec fn gap_end(
    s: Plan,
    c: Config,
    id: Seq<char>,
    key: (Seq<char>, Seq<char>),
    now: u128,
) -> Option<u128> {
    if s.bindings.contains_key(key) && s.bindings[key].finished is Some {
        let gap = match scheduler::position_of_id(s.pending, id) {
            Some(i) => scheduler::gap_for(
                signals::kind_of(s.pending[i].evidence, s.bindings[key].signals, now),
                c,
            ),
            None => c.gap,
        };
        clock::after(s.bindings[key].finished->0, gap)
    } else {
        None
    }
}

/// When a waiting request asks again at the latest.
pub open spec fn wake_at(
    s: Plan,
    c: Config,
    id: Seq<char>,
    key: (Seq<char>, Seq<char>),
    deadline: u128,
    now: u128,
) -> u128 {
    sooner(
        sooner(sooner(deadline, s.next_start, now), s.throttle.until, now),
        gap_end(s, c, id, key, now),
        now,
    )
}

/// Nothing known of a conversation's last turn.
pub open spec fn no_signals() -> SignalsView {
    SignalsView {
        input: EvidenceView {
            prefixes: Seq::empty(),
            items: Seq::empty(),
            length: 0,
            hash: Seq::empty(),
            previous: None,
        },
        output: (signals::Noted { valid: false, ..signals::fresh_watch(false, false).seen }),
        finished: None,
    }
}

/// How often tool work of one conversation has now started in a row.
pub open spec fn next_streak(
    streak: Option<((Seq<char>, Seq<char>), u8)>,
    kind: Kind,
    key: (Seq<char>, Seq<char>),
) -> Option<((Seq<char>, Seq<char>), u8)> {
    if kind == Kind::Tool {
        match streak {
            Some((previous, count)) => if previous == key {
                Some(
                    (
                        key,
                        if count < u8::MAX {
                            (count + 1) as u8
                        } else {
                            count
                        },
                    ),
                )
            } else {
                Some((key, 1))
            },
            None => Some((key, 1)),
        }
    } else {
        None
    }
}

/// The state after the request at a position has started.
pub open spec fn dispatched(s: Plan, i: int, now: u128) -> Plan {
    let p = s.pending[i];
    let rest = scheduler::without(s, i);
    Plan {
        tool_streak: next_streak(s.tool_streak, scheduler::kind_in(s, p, now), p.key),
        bindings: if p.sticky && !s.bindings.contains_key(p.key) {
            s.bindings.insert(p.key, Timing { finished: None, signals: no_signals() })
        } else {
            s.bindings
        },
        attempts: s.attempts.insert(p.id, p.fingerprint),
        running: s.running.insert(p.key, p.id),
        dispatching: Some(p.id),
        ..rest
    }
}

pub open spec fn is_lease(l: Lease, p: Waiting) -> bool {
    l.id@ == p.id && l.key@ == p.key && l.fingerprint@ == p.fingerprint && l.evidence@
        == p.evidence && l.deadline == p.deadline
}

fn count_waiting(list: &Vec<Pending>, key: &Key) -> (r: (usize, usize, u128))
    requires
        list@.len() < MAX_PENDING,
    ensures
        r.0 == of_key(scheduler::pending_views(list@), key@).len(),
        r.1 == of_tenant(scheduler::pending_views(list@), key@.0).len(),
        r.2 == total_bytes(scheduler::pending_views(list@)),
{
    let ghost views = scheduler::pending_views(list@);
    let mut same_key: usize = 0;
    let mut same_tenant: usize = 0;
    let mut bytes: u128 = 0;
    let mut i: usize = 0;
    proof {
        reveal(Seq::filter);
        assert(views.take(0) =~= Seq::empty());
    }
    while i < list.len()
        invariant
            i <= list@.len() < MAX_PENDING,
            views == scheduler::pending_views(list@),
            same_key <= i,
            same_tenant <= i,
            bytes <= i * usize::MAX,
            same_key == of_key(views.take(i as int), key@).len(),
            same_tenant == of_tenant(views.take(i as int), key@.0).len(),
            bytes == total_bytes(views.take(i as int)),
        decreases list@.len() - i,
    {
        proof {
            reveal(Seq::filter);
            assert(views.take(i + 1).drop_last() == views.take(i as int));
            assert(views[i as int] == list@[i as int]@);
            assert(i * usize::MAX + usize::MAX == (i + 1) * usize::MAX) by (nonlinear_arith);
            assert(i * usize::MAX <= MAX_PENDING * usize::MAX) by (nonlinear_arith)
                requires
                    i <= MAX_PENDING,
            ;
        }
        let p = &list[i];
        bytes += p.bytes as u128;
        if same(&p.key.0, &key.0) {
            same_tenant += 1;
            if same(&p.key.1, &key.1) {
                same_key += 1;
            }
        }
        i += 1;
    }
    assert(views.take(views.len() as int) == views);
    (same_key, same_tenant, bytes)
}

fn keys_contain(list: &Vec<Key>, key: &Key) -> (r: bool)
    ensures
        r == scheduler::key_views(list@).contains(key@),
{
    let ghost views = scheduler::key_views(list@);
    let mut i: usize = 0;
    while i < list.len()
        invariant
            i <= list@.len(),
            views == scheduler::key_views(list@),
            forall|j: int| 0 <= j < i ==> #[trigger] views[j] != key@,
        decreases list@.len() - i,
    {
        assert(views[i as int] == list@[i as int]@);
        if list[i].equals(key) {
            return true;
        }
        i += 1;
    }
    false
}

fn earlier_wake(wake: u128, at: Option<u128>, now: u128) -> (r: u128)
    ensures
        r == sooner(wake, at, now),
{
    match at {
        Some(at) => if at > now && at < wake {
            at
        } else {
            wake
        },
        None => wake,
    }
}

impl State {
    /// Reserves room for a request body.
    pub fn accept_body(&mut self, bytes: usize, config: &Config) -> (r: Result<(), Rejection>)
        requires
            old(self).wf(),
            scheduler::configured_max(old(self)@, *config) + MAX_PENDING <= usize::MAX,
        ensures
            final(self).wf(),
            r == journal::verdict(admits(old(self)@, *config, bytes)),
            r is Ok ==> final(self)@ == accepted(old(self)@, bytes),
            r is Err ==> *final(self) == *old(self),
    {
        if bytes > MAX_BODY {
            return Err(Rejection::TooLarge);
        }
        let configured = self.configured_max(config);
        if self.inbound >= MAX_PENDING + configured || self.bytes > MAX_RESIDENT || bytes
            > MAX_RESIDENT - self.bytes {
            return Err(Rejection::Full);
        }
        self.inbound += 1;
        self.bytes += bytes;
        Ok(())
    }

    /// Gives back the room of a request body.
    pub fn discharge(&mut self, bytes: usize)
        requires
            old(self).wf(),
            old(self)@.inbound >= 1,
            old(self)@.bytes >= bytes,
        ensures
            final(self).wf(),
            final(self)@ == discharged(old(self)@, bytes),
    {
        self.inbound -= 1;
        self.bytes -= bytes;
    }

    /// Forgets the timing of conversations that have been idle for long.
    fn retire(&mut self, now: u128, config: &Config)
        requires
            old(self).wf(),
        ensures
            final(self).wf(),
            final(self)@ == retired(old(self)@, *config, now),
            final(self).running == old(self).running,
            final(self).pending == old(self).pending,
    {
        let limit = max_of(
            max_of(max_of(config.gap, config.user_gap), config.tool_gap),
            config.idle_ttl,
        );
        let ghost s = self@;
        let running = &self.running;
        let pending = &self.pending;
        let ghost p = |k: (Seq<char>, Seq<char>), b: Binding|
            !idle_for(s.running, s.pending, k, b@, now, limit);
        let test = |k: &Key, b: &Binding| -> (keep: bool)
            requires
                running.wf(),
            ensures
                keep == !idle_for(
                    scheduler::running_view(running@),
                    scheduler::pending_views(pending@),
                    k@,
                    b@,
                    now,
                    limit,
                ),
            {
                match b.finished {
                    Some(at) => {
                        since(now, at) < limit || running.has(k) || find_key(pending, k).is_some()
                    },
                    None => true,
                }
            };
        proof {
            table::lemma_mapped_kept(
                self.bindings@,
                |b: Binding| b@,
                p,
                |k: (Seq<char>, Seq<char>), t: Timing| !idle_for(s.running, s.pending, k, t, now, limit),
            );
        }
        self.bindings.retain(test, Ghost(p));
    }

    /// Makes room for a new conversation's timing; whether there is room.
    fn make_room(&mut self, key: &Key, now: u128, config: &Config) -> (r: bool)
        requires
            old(self).wf(),
        ensures
            final(self).wf(),
            r == !no_room(old(self)@, *config, now, key@),
            r ==> room_made(old(self)@, *config, now, key@, final(self)@.bindings),
            !r ==> final(self)@.bindings == old(self)@.bindings,
            final(self)@ == (Plan { bindings: final(self)@.bindings, ..old(self)@ }),
    {
        let ghost s = self@;
        let ghost raw = self.bindings@;
        assert(s.bindings.dom() =~= raw.dom());
        if self.bindings.len() < MAX_BINDINGS || self.bindings.has(key) {
            return true;
        }
        let gap = max_of(max_of(config.gap, config.user_gap), config.tool_gap);
        let running = &self.running;
        let pending = &self.pending;
        let ghost rank = |k: (Seq<char>, Seq<char>), b: Binding|
            (idle_since(s, *config, now))(k, b@);
        let test = |k: &Key, b: &Binding| -> (since_when: Option<u128>)
            requires
                running.wf(),
            ensures
                since_when == (if idle_for(
                    scheduler::running_view(running@),
                    scheduler::pending_views(pending@),
                    k@,
                    b@,
                    now,
                    gap,
                ) {
                    b.finished
                } else {
                    None
                }),
            {
                match b.finished {
                    Some(at) => if since(now, at) >= gap && !running.has(k) && find_key(
                        pending,
                        k,
                    ).is_none() {
                        Some(at)
                    } else {
                        None
                    },
                    None => None,
                }
            };
        let oldest = self.bindings.least(test, Ghost(rank));
        match oldest {
            Some(i) => {
                let ghost k = self.bindings.entries@[i as int].0@;
                proof {
                    lemma_rank_view(raw, s, *config, now, k);
                    table::lemma_mapped_remove(raw, |b: Binding| b@, k);
                }
                let _ = self.bindings.remove_at(i);
                true
            },
            None => {
                proof {
                    assert forall|k: (Seq<char>, Seq<char>)| #[trigger]
                        s.bindings.contains_key(k) implies (idle_since(s, *config, now))(
                        k,
                        s.bindings[k],
                    ) is None by {
                        assert(raw.contains_key(k));
                    }
                }
                false
            },
        }
    }

    /// Lets a request wait for its turn; `now` is the instant and `wall` the second of the wall
    /// clock.
    pub fn enqueue(&mut self, pending: Pending, now: u128, wall: u64, config: &Config) -> (r: Result<
        Ticket,
        Rejection,
    >)
        requires
            old(self).wf(),
            now + config.timeout <= LAST_INSTANT,
        ensures
            final(self).wf(),
            ({
                let p = prepared(pending@, *config, now);
                let s = retired(old(self)@, *config, now);
                if no_room(s, *config, now, p.key) {
                    r == Err::<Ticket, Rejection>(Rejection::Full) && final(self)@ == s
                } else {
                    let b = final(self)@.bindings;
                    room_made(s, *config, now, p.key, b) && enqueued(
                        (Plan { bindings: b, ..s }),
                        p,
                        now,
                        wall,
                        r,
                        final(self)@,
                    )
                }
            }),
    {
        let ghost p = prepared(pending@, *config, now);
        let mut pending = pending;
        let latest = now + config.timeout;
        if pending.deadline > latest {
            pending.deadline = latest;
        }
        pending.id = digest_pair(&pending.key.0, &pending.id);
        assert(pending@ == p);
        self.retire(now, config);
        let ghost s = self@;
        if !self.make_room(&pending.key, now, config) {
            return Err(Rejection::Full);
        }
        let ghost roomy = self@;
        assert(roomy == (Plan { bindings: roomy.bindings, ..s }));
        if let Err(e) = self.journal.check(&pending.id, &pending.fingerprint, wall) {
            assert(self@ == recalled(roomy, wall));
            return Err(e);
        }
        let ghost checked = self@;
        assert(checked == recalled(roomy, wall));
        self.forget_cancellations(now);
        let ghost ready = self@;
        let cancel_key = Key(pending.key.0.clone(), pending.id.clone());
        if self.cancelled.has(&cancel_key) {
            return Err(Rejection::Cancelled);
        }
        let known = match find_id(&self.pending, &pending.id) {
            Some(i) => {
                assert(ready.pending[i as int] == self.pending@[i as int]@);
                Some(same(&self.pending[i].fingerprint, &pending.fingerprint))
            },
            None => match self.attempts.get(&pending.id) {
                Some(attempt) => Some(same(&attempt.fingerprint, &pending.fingerprint)),
                None => None,
            },
        };
        if let Some(equal) = known {
            return Err(
                if equal {
                    Rejection::Duplicate
                } else {
                    Rejection::Conflict
                },
            );
        }
        if self.pending.len() >= MAX_PENDING {
            return Err(Rejection::Full);
        }
        let (same_key, same_tenant, bytes) = count_waiting(&self.pending, &pending.key);
        if pending.bytes as u128 > MAX_WAITING_BYTES || bytes > MAX_WAITING_BYTES
            - pending.bytes as u128 {
            return Err(Rejection::Full);
        }
        if same_key >= MAX_PER_CONVERSATION || same_tenant >= MAX_PER_TENANT {
            return Err(Rejection::Limited);
        }
        let ticket = Ticket {
            id: pending.id.clone(),
            key: pending.key.duplicate(),
            deadline: pending.deadline,
        };
        self.join(pending);
        Ok(ticket)
    }

    fn forget_cancellations(&mut self, now: u128)
        requires
            old(self).wf(),
        ensures
            final(self).wf(),
            final(self)@ == uncancelled(old(self)@, now),
            final(self).pending == old(self).pending,
            final(self).attempts == old(self).attempts,
    {
        let ghost p = |k: (Seq<char>, Seq<char>), expiry: u128| expiry > now;
        let test = |k: &Key, expiry: &u128| -> (keep: bool)
            ensures
                keep == (*expiry > now),
            { *expiry > now };
        self.cancelled.retain(test, Ghost(p));
    }

    fn join(&mut self, pending: Pending)
        requires
            old(self).wf(),
        ensures
            final(self).wf(),
            final(self)@ == joined(old(self)@, pending@),
    {
        let ghost s = self@;
        if !list_contains(&self.tenants, &pending.key.0) {
            self.tenants.push(pending.key.0.clone());
            assert(text::texts(self.tenants@) =~= s.tenants.push(pending.key.0@));
        }
        if !keys_contain(&self.conversations, &pending.key) {
            self.conversations.push(pending.key.duplicate());
            assert(scheduler::key_views(self.conversations@) =~= s.conversations.push(
                pending.key@,
            ));
        }
        self.pending.push(pending);
        assert(scheduler::pending_views(self.pending@) =~= s.pending.push(pending@));
    }

    /// What a waiting request is to do now.
    pub fn poll(&mut self, ticket: &Ticket, now: u128, config: &Config) -> (r: Turn)
        requires
            old(self).wf(),
        ensures
            final(self).wf(),
            ({
                let s = old(self)@;
                match giving_up(s, *config, ticket.id@, ticket.key@, ticket.deadline, now) {
                    Some(e) => r == Turn::Rejected(e) && final(self)@ == scheduler::removed(
                        s,
                        ticket.id@,
                    ),
                    None => if scheduler::selection(s, *config, now) == Some(ticket.id@) {
                        let i = scheduler::position_of_id(s.pending, ticket.id@)->0;
                        &&& r matches Turn::Start(lease) && is_lease(lease, s.pending[i])
                        &&& final(self)@ == dispatched(s, i, now)
                    } else {
                        &&& r == Turn::Wait(
                            wake_at(s, *config, ticket.id@, ticket.key@, ticket.deadline, now),
                        )
                        &&& *final(self) == *old(self)
                    },
                }
            }),
    {
        let ghost s = self@;
        if let Some(e) = self.gives_up(ticket, now, config) {
            let _ = self.remove(&ticket.id);
            return Turn::Rejected(e);
        }
        let chosen = match self.selected(now, config) {
            Some(i) => {
                assert(s.pending[i as int] == self.pending@[i as int]@);
                same(&self.pending[i].id, &ticket.id)
            },
            None => false,
        };
        if !chosen {
            return Turn::Wait(self.wake(ticket, now, config));
        }
        proof {
            scheduler::law_selection_is_startable(s, *config, now);
        }
        match self.remove(&ticket.id) {
            Some(pending) => Turn::Start(self.dispatch(pending, now)),
            None => Turn::Rejected(Rejection::Unavailable),
        }
    }

    /// Why a waiting request gives up.
    fn gives_up(&self, ticket: &Ticket, now: u128, config: &Config) -> (r: Option<Rejection>)
        requires
            self.wf(),
        ensures
            r == giving_up(self@, *config, ticket.id@, ticket.key@, ticket.deadline, now),
    {
        let cancel_key = Key(ticket.key.0.clone(), ticket.id.clone());
        if self.cancelled.has(&cancel_key) {
            return Some(Rejection::Cancelled);
        }
        if self.paused || self.throttle.blocked {
            return Some(Rejection::Paused);
        }
        if let Some(until) = self.throttle.until {
            if until > now && until >= ticket.deadline {
                return Some(Rejection::Cooldown(saturating_second(seconds_of(until - now), 1)));
            }
        }
        assert(self@.quarantined.dom() =~= self.quarantined@.dom());
        if self.uncertain || (!config.automatic_recovery && (self.quarantined.len()
            >= self.running_cap(config) || self.is_isolated(&ticket.key.digest()))) {
            return Some(Rejection::Unavailable);
        }
        if now >= ticket.deadline {
            return Some(Rejection::Expired);
        }
        None
    }

    /// When a waiting request asks again at the latest.
    fn wake(&self, ticket: &Ticket, now: u128, config: &Config) -> (r: u128)
        requires
            self.wf(),
        ensures
            r == wake_at(self@, *config, ticket.id@, ticket.key@, ticket.deadline, now),
    {
        let gap_end = match self.bindings.get(&ticket.key) {
            Some(binding) => match binding.finished {
                Some(at) => {
                    let time: u128 = match find_id(&self.pending, &ticket.id) {
                        Some(i) => {
                            assert(self@.pending[i as int] == self.pending@[i as int]@);
                            gap(self.pending[i].evidence.kind(&binding.signals, now), config)
                        },
                        None => config.gap,
                    };
                    checked_after(at, time)
                },
                None => None,
            },
            None => None,
        };
        let wake = earlier_wake(ticket.deadline, self.next_start, now);
        let wake = earlier_wake(wake, self.throttle.until, now);
        earlier_wake(wake, gap_end, now)
    }

    /// Starts a request that was taken out of the queue.
    fn dispatch(&mut self, pending: Pending, now: u128) -> (r: Lease)
        requires
            old(self).wf(),
        ensures
            final(self).wf(),
            is_lease(r, pending@),
            ({
                let s = old(self)@;
                let p = pending@;
                final(self)@ == (Plan {
                    tool_streak: next_streak(s.tool_streak, scheduler::kind_in(s, p, now), p.key),
                    bindings: if p.sticky && !s.bindings.contains_key(p.key) {
                        s.bindings.insert(p.key, Timing { finished: None, signals: no_signals() })
                    } else {
                        s.bindings
                    },
                    attempts: s.attempts.insert(p.id, p.fingerprint),
                    running: s.running.insert(p.key, p.id),
                    dispatching: Some(p.id),
                    ..s
                })
            }),
    {
        let ghost s = self@;
        let kind = self.kind_of(&pending, now);
        let streak: Option<(Key, u8)> = if kind == Kind::Tool {
            let count: u8 = match &self.tool_streak {
                Some((previous, count)) => if previous.equals(&pending.key) {
                    count.saturating_add(1)
                } else {
                    1
                },
                None => 1,
            };
            Some((pending.key.duplicate(), count))
        } else {
            None
        };
        self.tool_streak = streak;
        if pending.sticky && !self.bindings.has(&pending.key) {
            let binding = Binding {
                finished: None,
                signals: Signals {
                    input: Evidence::none(),
                    output: Observation::none(),
                    finished: None,
                },
            };
            proof {
                table::lemma_mapped_insert(
                    self.bindings@,
                    |b: Binding| b@,
                    pending.key@,
                    binding,
                );
            }
            self.bindings.insert(pending.key.duplicate(), binding);
        }
        let attempt = Attempt { fingerprint: pending.fingerprint.clone() };
        proof {
            table::lemma_mapped_insert(
                self.attempts@,
                |a: Attempt| a.fingerprint@,
                pending.id@,
                attempt,
            );
            table::lemma_mapped_insert(
                self.running@,
                |id: String| id@,
                pending.key@,
                pending.id,
            );
        }
        self.attempts.insert(pending.id.clone(), attempt);
        self.running.insert(pending.key.duplicate(), pending.id.clone());
        self.dispatching = Some(pending.id.clone());
        Lease {
            id: pending.id,
            key: pending.key,
            fingerprint: pending.fingerprint,
            evidence: pending.evidence,
            deadline: pending.deadline,
        }
    }

    /// Cancels a tenant's request: one that runs is to be ended, any other does not start.
    pub fn cancel(&mut self, tenant: String, id: String, now: u128) -> (r: Result<
        Cancellation,
        Rejection,
    >)
        requires
            old(self).wf(),
            now <= LAST_INSTANT,
        ensures
            final(self).wf(),
            r == cancellation(old(self)@, tenant@, digest::pair_digest(tenant@, id@), now),
            final(self)@ == after_cancellation(
                old(self)@,
                tenant@,
                digest::pair_digest(tenant@, id@),
                now,
            ),
    {
        let id = digest_pair(&tenant, &id);
        let dispatching = match &self.dispatching {
            Some(other) => same(other, &id),
            None => false,
        };
        if self.runs(&tenant, &id) && !dispatching {
            return Ok(
                if self.attempts.has(&id) {
                    Cancellation::Finalize
                } else {
                    Cancellation::Running
                },
            );
        }
        self.forget_cancellations(now);
        let key = Key(tenant, id);
        if self.cancelled.len() >= MAX_CANCELLED && !self.cancelled.has(&key) {
            return Err(Rejection::Full);
        }
        self.cancelled.insert(key, now + CANCELLED_FOR);
        Ok(Cancellation::Noted)
    }

    fn runs(&self, tenant: &str, id: &str) -> (r: bool)
        requires
            self.wf(),
        ensures
            r == running_as(self@, tenant@, id@),
    {
        let ghost all = self.running.entries@;
        let mut i: usize = 0;
        while i < self.running.entries.len()
            invariant
                i <= self.running.entries@.len(),
                self.wf(),
                all == self.running.entries@,
                forall|j: int|
                    0 <= j < i ==> !((#[trigger] all[j]).0.0@ == tenant@ && all[j].1@ == id@),
            decreases self.running.entries@.len() - i,
        {
            if same(&self.running.entries[i].0.0, tenant) && same(&self.running.entries[i].1, id) {
                proof {
                    table::lemma_map_of(all);
                    assert(self.running@.contains_key(all[i as int].0@));
                    assert(self@.running.contains_key(all[i as int].0@));
                }
                return true;
            }
            i += 1;
        }
        proof {
            table::lemma_map_of(all);
            assert forall|key: (Seq<char>, Seq<char>)| #[trigger]
                self@.running.contains_key(key) implies !(key.0 == tenant@ && self@.running[key]
                == id@) by {
                assert(self.running@.contains_key(key));
                let j = choose|j: int| 0 <= j < all.len() && (#[trigger] all[j]).0@ == key;
                assert(self.running@[all[j].0@] == all[j].1);
            }
        }
        false
    }

    /// Changes how many requests may run at once.
    pub fn set_limit(&mut self, limit: usize)
        requires
            old(self).wf(),
        ensures
            final(self).wf(),
            final(self)@ == limited(old(self)@, limit),
    {
        if self.throttle.limit == self.max_running || self.throttle.limit > limit {
            self.throttle.limit = limit;
        }
        self.max_running = limit;
    }

    /// The state of a fresh process that takes over a journal, at an instant and a second of
    /// the wall clock.
    pub fn restore(config: &Config, journal: Journal, now: u128, wall: u64) -> (r: State)
        requires
            journal.wf(),
            now + startup_gap(*config) <= LAST_INSTANT,
        ensures
            r.wf(),
            r@ == restored(*config, journal@, now, wall, r@.quarantined),
            forall|id: Seq<char>| #[trigger]
                r@.quarantined.contains_key(id) <==> journal@.records.contains_key(id)
                    && journal@.records[id].open(),
            forall|id: Seq<char>| #[trigger]
                r@.quarantined.contains_key(id) ==> r@.quarantined[id]
                    == journal@.records[id].conversation,
    {
        let quarantined = journal.unfinished();
        let ghost all = quarantined.entries@;
        let mut uncertain = false;
        let mut i: usize = 0;
        while i < quarantined.entries.len()
            invariant
                i <= quarantined.entries@.len(),
                all == quarantined.entries@,
                uncertain == exists|j: int| 0 <= j < i && (#[trigger] all[j]).1 is None,
            decreases quarantined.entries@.len() - i,
        {
            if quarantined.entries[i].1.is_none() {
                assert(all[i as int].1 is None);
                uncertain = true;
            }
            i += 1;
        }
        proof {
            table::lemma_map_of(all);
            let m = scheduler::quarantine_view(quarantined@);
            assert(uncertain == any_unnamed(m)) by {
                if uncertain {
                    let j = choose|j: int| 0 <= j < all.len() && (#[trigger] all[j]).1 is None;
                    assert(quarantined@.contains_key(all[j].0@));
                    assert(m.contains_key(all[j].0@));
                }
                if any_unnamed(m) {
                    let id = choose|id: Seq<char>| #[trigger] m.contains_key(id) && m[id] is None;
                    assert(quarantined@.contains_key(id));
                    let j = choose|j: int| 0 <= j < all.len() && (#[trigger] all[j]).0@ == id;
                    assert(quarantined@[all[j].0@] == all[j].1);
                    assert(all[j].1 is None);
                }
            }
        }
        let (cooldown, blocked, limit) = journal.account(wall);
        let until = match cooldown {
            Some(time) => checked_after(now, time),
            None => None,
        };
        let mut throttle = Throttle::with_limit(
            if limit == 0 || limit > config.max_running {
                config.max_running
            } else {
                limit
            },
        );
        throttle.until = until;
        throttle.blocked = blocked || (cooldown.is_some() && until.is_none());
        // A fresh timing cache does not shorten a conversation's gap from before the start.
        let gap = max_of(
            max_of(max_of(config.gap, config.user_gap), config.tool_gap),
            config.start_gap,
        );
        let next_start: Option<u128> = if gap == 0 {
            None
        } else {
            Some(now + gap)
        };
        let r = State {
            max_running: config.max_running,
            pending: Vec::new(),
            running: Table::new(),
            tenants: Vec::new(),
            conversations: Vec::new(),
            bindings: Table::new(),
            cancelled: Table::new(),
            next_start,
            uncertain,
            quarantined,
            paused: false,
            journal,
            throttle,
            attempts: Table::new(),
            tool_streak: None,
            dispatching: None,
            inbound: 0,
            bytes: 0,
        };
        proof {
            assert(r@.pending =~= Seq::empty());
            assert(r@.tenants =~= Seq::empty());
            assert(r@.conversations =~= Seq::empty());
            assert(r@.running =~= Map::empty());
            assert(r@.bindings =~= Map::empty());
            assert(r@.attempts =~= Map::empty());
        }
        r
    }

    /// A summary for operators.
    pub fn status(&self, now: u128, config: &Config) -> (r: Json)
        requires
            self.wf(),
        ensures
            r@ == status_tree(
                self@,
                journal::recovery_tree(self.journal.records.entries@),
                now,
                *config,
            ),
    {
        proof {
            assert(self@.running.dom() =~= self.running@.dom());
            assert(self@.quarantined.dom() =~= self.quarantined@.dom());
            assert(self@.bindings.dom() =~= self.bindings@.dom());
        }
        let quarantined = self.quarantined.len();
        let mut r = Json::object();
        r.set("pending".to_owned(), Json::unsigned(self.pending.len() as u64));
        r.set("running".to_owned(), sum_json(self.running.len(), quarantined));
        r.set("max_running".to_owned(), Json::unsigned(self.max_running as u64));
        r.set("conversations".to_owned(), Json::unsigned(self.bindings.len() as u64));
        r.set("body_bytes_reserved".to_owned(), Json::unsigned(self.bytes as u64));
        r.set("outcome_unknown".to_owned(), Json::Bool(self.uncertain || quarantined > 0));
        r.set("quarantined".to_owned(), Json::unsigned(quarantined as u64));
        r.set("worker_fault".to_owned(), Json::Bool(self.uncertain));
        r.set("automatic_recovery".to_owned(), Json::Bool(config.automatic_recovery));
        r.set("recovery".to_owned(), self.journal.recovery_status());
        r.set("effective_max_running".to_owned(), Json::unsigned(self.throttle.limit as u64));
        r.set("paused".to_owned(), Json::Bool(self.paused));
        r.set("account_unavailable".to_owned(), Json::Bool(self.throttle.blocked));
        let reason = match self.throttle.blocked_reason {
            Some(reason) => Json::Text(reason.text().to_owned()),
            None => Json::Null,
        };
        r.set("account_unavailable_reason".to_owned(), reason);
        let left: u64 = match self.throttle.until {
            Some(until) => seconds_up(since(until, now)),
            None => 0,
        };
        r.set("cooldown_seconds".to_owned(), Json::unsigned(left));
        r
    }
}

fn sum_json(a: usize, b: usize) -> (r: Json)
    ensures
        r@ == Tree::Number(Quantity::Unsigned(saturated(a + b))),
{
    Json::unsigned((a as u64).saturating_add(b as u64))
}

pub open spec fn saturated(n: int) -> u64 {
    if n <= u64::MAX {
        n as u64
    } else {
        u64::MAX
    }
}

fn seconds_up(time: u128) -> (r: u64)
    ensures
        r == rounded_up(time),
{
    let whole = seconds_of(time);
    if time % SECOND != 0 {
        saturating_second(whole, 1)
    } else {
        whole
    }
}

/// A duration in seconds, rounded up.
pub open spec fn rounded_up(time: u128) -> u64 {
    if time % SECOND != 0 {
        clock::later_second(clock::whole_seconds(time), 1)
    } else {
        clock::whole_seconds(time)
    }
}

/// The summary for operators.
pub open spec fn status_tree(s: Plan, recovery: Tree, now: u128, c: Config) -> Tree {
    let quarantined = s.quarantined.dom().len();
    let m = Map::<Seq<char>, Tree>::empty();
    let m = m.insert("pending"@, journal::number_tree(s.pending.len()));
    let m = m.insert(
        "running"@,
        Tree::Number(Quantity::Unsigned(saturated(scheduler::load(s) as int))),
    );
    let m = m.insert("max_running"@, journal::number_tree(s.max_running as nat));
    let m = m.insert("conversations"@, journal::number_tree(s.bindings.dom().len()));
    let m = m.insert("body_bytes_reserved"@, journal::number_tree(s.bytes as nat));
    let m = m.insert("outcome_unknown"@, Tree::Bool(s.uncertain || quarantined > 0));
    let m = m.insert("quarantined"@, journal::number_tree(quarantined));
    let m = m.insert("worker_fault"@, Tree::Bool(s.uncertain));
    let m = m.insert("automatic_recovery"@, Tree::Bool(c.automatic_recovery));
    let m = m.insert("recovery"@, recovery);
    let m = m.insert("effective_max_running"@, journal::number_tree(s.throttle.limit as nat));
    let m = m.insert("paused"@, Tree::Bool(s.paused));
    let m = m.insert("account_unavailable"@, Tree::Bool(s.throttle.blocked));
    let m = m.insert(
        "account_unavailable_reason"@,
        match s.throttle.blocked_reason {
            Some(reason) => Tree::Text(reason.name()),
            None => Tree::Null,
        },
    );
    let m = m.insert(
        "cooldown_seconds"@,
        Tree::Number(
            Quantity::Unsigned(
                match s.throttle.until {
                    Some(until) => rounded_up(clock::elapsed(until, now) as u128),
                    None => 0,
                },
            ),
        ),
    );
    Tree::Object(m)
}

pub open spec fn startup_gap(c: Config) -> u128 {
    clock::larger(longest_gap(c), c.start_gap)
}

/// Whether a request is recorded without its conversation.
pub open spec fn any_unnamed(m: Map<Seq<char>, Option<Seq<char>>>) -> bool {
    exists|id: Seq<char>| #[trigger] m.contains_key(id) && m[id] is None
}

/// The state of a fresh process that takes over a journal.
pub open spec fn restored(
    c: Config,
    j: Ledger,
    now: u128,
    wall: u64,
    quarantined: Map<Seq<char>, Option<Seq<char>>>,
) -> Plan {
    let cooldown = journal::remaining_cooldown(j.cooldown_until, wall);
    let until = match cooldown {
        Some(time) => clock::after(now, time),
        None => None,
    };
    Plan {
        max_running: c.max_running,
        pending: Seq::empty(),
        running: Map::empty(),
        tenants: Seq::empty(),
        conversations: Seq::empty(),
        bindings: Map::empty(),
        cancelled: Map::empty(),
        next_start: if startup_gap(c) == 0 {
            None
        } else {
            Some((now + startup_gap(c)) as u128)
        },
        uncertain: any_unnamed(quarantined),
        quarantined,
        paused: false,
        journal: j,
        throttle: Throttle {
            until,
            blocked: j.account_blocked || (cooldown is Some && until is None),
            blocked_reason: None,
            limit: if j.concurrency == 0 || j.concurrency > c.max_running {
                c.max_running
            } else {
                j.concurrency
            },
            limited: 0,
            failures: 0,
            healthy_since: None,
            successes: 0,
        },
        attempts: Map::empty(),
        tool_streak: None,
        dispatching: None,
        inbound: 0,
        bytes: 0,
    }
}

/// Whether a tenant's request runs.
pub open spec fn running_as(s: Plan, tenant: Seq<char>, id: Seq<char>) -> bool {
    exists|key: (Seq<char>, Seq<char>)| #[trigger]
        s.running.contains_key(key) && key.0 == tenant && s.running[key] == id
}

/// Whether a cancellation comes after its request was sent.
pub open spec fn cancels_running(s: Plan, tenant: Seq<char>, id: Seq<char>) -> bool {
    running_as(s, tenant, id) && s.dispatching != Some(id)
}

pub open spec fn cancellation(s: Plan, tenant: Seq<char>, id: Seq<char>, now: u128) -> Result<
    Cancellation,
    Rejection,
> {
    let cleaned = uncancelled(s, now);
    if cancels_running(s, tenant, id) {
        Ok(
            if s.attempts.contains_key(id) {
                Cancellation::Finalize
            } else {
                Cancellation::Running
            },
        )
    } else if cleaned.cancelled.dom().len() >= MAX_CANCELLED && !cleaned.cancelled.contains_key(
        (tenant, id),
    ) {
        Err(Rejection::Full)
    } else {
        Ok(Cancellation::Noted)
    }
}

pub open spec fn after_cancellation(s: Plan, tenant: Seq<char>, id: Seq<char>, now: u128) -> Plan {
    let cleaned = uncancelled(s, now);
    if cancels_running(s, tenant, id) {
        s
    } else if cancellation(s, tenant, id, now) is Err {
        cleaned
    } else {
        Plan {
            cancelled: cleaned.cancelled.insert((tenant, id), (now + CANCELLED_FOR) as u128),
            ..cleaned
        }
    }
}

proof fn lemma_rank_view(
    raw: Map<(Seq<char>, Seq<char>), Binding>,
    s: Plan,
    c: Config,
    now: u128,
    k: (Seq<char>, Seq<char>),
)
    requires
        s.bindings == scheduler::binding_views(raw),
        table::is_least(
            raw,
            |k: (Seq<char>, Seq<char>), b: Binding| (idle_since(s, c, now))(k, b@),
            k,
        ),
    ensures
        table::is_least(s.bindings, idle_since(s, c, now), k),
{
    assert forall|other: (Seq<char>, Seq<char>)| #[trigger] s.bindings.contains_key(other) implies (
    (idle_since(s, c, now))(other, s.bindings[other]) matches Some(at) ==> (idle_since(s, c, now))(
        k,
        s.bindings[k],
    )->0 <= at) by {
        assert(raw.contains_key(other));
    }
}

/// Whether the queues hold the tenants and conversations of what waits, each once.
pub open spec fn queues_agree(s: Plan) -> bool {
    &&& s.tenants.no_duplicates()
    &&& s.conversations.no_duplicates()
    &&& forall|t: Seq<char>| #[trigger] s.tenants.contains(t) <==> scheduler::has_tenant(s.pending, t)
    &&& forall|k: (Seq<char>, Seq<char>)| #[trigger]
        s.conversations.contains(k) <==> scheduler::has_key(s.pending, k)
}

proof fn lemma_filter<A>(queue: Seq<A>, p: spec_fn(A) -> bool)
    ensures
        forall|a: A| #[trigger] queue.filter(p).contains(a) <==> queue.contains(a) && p(a),
        queue.no_duplicates() ==> queue.filter(p).no_duplicates(),
        queue.filter(p).len() <= queue.len(),
    decreases queue.len(),
{
    reveal(Seq::filter);
    if queue.len() > 0 {
        let front = queue.drop_last();
        lemma_filter(front, p);
        assert forall|a: A| #[trigger] queue.filter(p).contains(a) implies queue.contains(a) && p(
            a,
        ) by {
            let i = choose|i: int| 0 <= i < queue.filter(p).len() && queue.filter(p)[i] == a;
            if i < front.filter(p).len() {
                assert(front.filter(p)[i] == a);
                assert(front.filter(p).contains(a));
                let j = choose|j: int| 0 <= j < front.len() && front[j] == a;
                assert(queue[j] == a);
            } else {
                assert(queue[queue.len() - 1] == a);
            }
        }
        assert forall|a: A| queue.contains(a) && p(a) implies #[trigger] queue.filter(p).contains(
            a,
        ) by {
            let j = choose|j: int| 0 <= j < queue.len() && queue[j] == a;
            if j < front.len() {
                assert(front[j] == a);
                assert(front.filter(p).contains(a));
                let i = choose|i: int| 0 <= i < front.filter(p).len() && front.filter(p)[i] == a;
                assert(queue.filter(p)[i] == a);
            } else {
                assert(queue.filter(p)[queue.filter(p).len() - 1] == a);
            }
        }
        if queue.no_duplicates() {
            assert(front.no_duplicates()) by {
                assert forall|i: int, j: int|
                    0 <= i < front.len() && 0 <= j < front.len() && i != j implies front[i]
                    != front[j] by {
                    assert(queue[i] != queue[j]);
                }
            }
            if front.filter(p).contains(queue.last()) {
                let j = choose|j: int| 0 <= j < front.len() && front[j] == queue.last();
                assert(queue[j] != queue[queue.len() - 1]);
            }
        }
    }
}

proof fn lemma_requeued<A>(queue: Seq<A>, a: A, stays: bool)
    requires
        queue.no_duplicates(),
    ensures
        scheduler::requeued(queue, a, stays).no_duplicates(),
        forall|b: A| #[trigger]
            scheduler::requeued(queue, a, stays).contains(b) <==> if b == a {
                stays
            } else {
                queue.contains(b)
            },
{
    let p = |b: A| b != a;
    let rest = queue.filter(p);
    lemma_filter(queue, p);
    let after = scheduler::requeued(queue, a, stays);
    if stays {
        assert(after[after.len() - 1] == a);
        assert forall|b: A| rest.contains(b) implies #[trigger] after.contains(b) by {
            let i = choose|i: int| 0 <= i < rest.len() && rest[i] == b;
            assert(after[i] == b);
        }
        assert forall|b: A| #[trigger] after.contains(b) implies b == a || rest.contains(b) by {
            let i = choose|i: int| 0 <= i < after.len() && after[i] == b;
            if i < rest.len() {
                assert(rest[i] == b);
            }
        }
        assert(!rest.contains(a));
    }
}

/// Taking a request out keeps the queues in agreement with what waits.
pub proof fn law_remove_keeps_queues(s: Plan, i: int)
    requires
        queues_agree(s),
        0 <= i < s.pending.len(),
    ensures
        queues_agree(scheduler::without(s, i)),
{
    let p = s.pending[i];
    let rest = s.pending.remove(i);
    let after = scheduler::without(s, i);
    lemma_requeued(s.tenants, p.key.0, scheduler::has_tenant(rest, p.key.0));
    lemma_requeued(s.conversations, p.key, scheduler::has_key(rest, p.key));
    assert forall|t: Seq<char>| #[trigger] after.tenants.contains(t) <==> scheduler::has_tenant(
        rest,
        t,
    ) by {
        if t != p.key.0 {
            if scheduler::has_tenant(s.pending, t) {
                let j = choose|j: int|
                    0 <= j < s.pending.len() && (#[trigger] s.pending[j]).key.0 == t;
                let k = if j < i {
                    j
                } else {
                    j - 1
                };
                assert(rest[k].key.0 == t);
            }
            if scheduler::has_tenant(rest, t) {
                let k = choose|k: int| 0 <= k < rest.len() && (#[trigger] rest[k]).key.0 == t;
                let j = if k < i {
                    k
                } else {
                    k + 1
                };
                assert(s.pending[j].key.0 == t);
            }
            assert(s.tenants.contains(t) <==> scheduler::has_tenant(s.pending, t));
        }
    }
    assert forall|key: (Seq<char>, Seq<char>)| #[trigger]
        after.conversations.contains(key) <==> scheduler::has_key(rest, key) by {
        if key != p.key {
            if scheduler::has_key(s.pending, key) {
                let j = choose|j: int|
                    0 <= j < s.pending.len() && (#[trigger] s.pending[j]).key == key;
                let k = if j < i {
                    j
                } else {
                    j - 1
                };
                assert(rest[k].key == key);
            }
            if scheduler::has_key(rest, key) {
                let k = choose|k: int| 0 <= k < rest.len() && (#[trigger] rest[k]).key == key;
                let j = if k < i {
                    k
                } else {
                    k + 1
                };
                assert(s.pending[j].key == key);
            }
            assert(s.conversations.contains(key) <==> scheduler::has_key(s.pending, key));
        }
    }
}

proof fn lemma_queued<A>(queue: Seq<A>, a: A)
    requires
        queue.no_duplicates(),
    ensures
        queued(queue, a).no_duplicates(),
        forall|b: A| #[trigger] queued(queue, a).contains(b) <==> b == a || queue.contains(b),
{
    let after = queued(queue, a);
    if !queue.contains(a) {
        assert(after[after.len() - 1] == a);
        assert forall|b: A| queue.contains(b) implies #[trigger] after.contains(b) by {
            let i = choose|i: int| 0 <= i < queue.len() && queue[i] == b;
            assert(after[i] == b);
        }
        assert forall|b: A| #[trigger] after.contains(b) implies b == a || queue.contains(b) by {
            let i = choose|i: int| 0 <= i < after.len() && after[i] == b;
            if i < queue.len() {
                assert(queue[i] == b);
            }
        }
    }
}

/// Letting a request wait keeps the queues in agreement with what waits.
pub proof fn law_join_keeps_queues(s: Plan, p: Waiting)
    requires
        queues_agree(s),
    ensures
        queues_agree(joined(s, p)),
{
    let after = joined(s, p);
    lemma_queued(s.tenants, p.key.0);
    lemma_queued(s.conversations, p.key);
    assert(after.pending[s.pending.len() as int] == p);
    assert forall|t: Seq<char>| #[trigger] after.tenants.contains(t) <==> scheduler::has_tenant(
        after.pending,
        t,
    ) by {
        if scheduler::has_tenant(s.pending, t) {
            let j = choose|j: int| 0 <= j < s.pending.len() && (#[trigger] s.pending[j]).key.0 == t;
            assert(after.pending[j].key.0 == t);
        }
        if scheduler::has_tenant(after.pending, t) && t != p.key.0 {
            let j = choose|j: int|
                0 <= j < after.pending.len() && (#[trigger] after.pending[j]).key.0 == t;
            assert(s.pending[j].key.0 == t);
        }
        assert(s.tenants.contains(t) <==> scheduler::has_tenant(s.pending, t));
    }
    assert forall|k: (Seq<char>, Seq<char>)| #[trigger]
        after.conversations.contains(k) <==> scheduler::has_key(after.pending, k) by {
        if scheduler::has_key(s.pending, k) {
            let j = choose|j: int| 0 <= j < s.pending.len() && (#[trigger] s.pending[j]).key == k;
            assert(after.pending[j].key == k);
        }
        if scheduler::has_key(after.pending, k) && k != p.key {
            let j = choose|j: int|
                0 <= j < after.pending.len() && (#[trigger] after.pending[j]).key == k;
            assert(s.pending[j].key == k);
        }
        assert(s.conversations.contains(k) <==> scheduler::has_key(s.pending, k));
    }
}

/// Whether no more waits than may, in all, of each conversation and of each tenant.
pub open spec fn within_bounds(list: Seq<Waiting>) -> bool {
    &&& list.len() <= MAX_PENDING
    &&& total_bytes(list) <= MAX_WAITING_BYTES
    &&& forall|k: (Seq<char>, Seq<char>)| #[trigger]
        of_key(list, k).len() <= MAX_PER_CONVERSATION
    &&& forall|t: Seq<char>| #[trigger] of_tenant(list, t).len() <= MAX_PER_TENANT
}

/// A request that is not refused keeps what waits within its bounds.
pub proof fn law_waiting_is_bounded(s: Plan, p: Waiting)
    requires
        within_bounds(s.pending),
        waiting_refusal(s, p) is None,
    ensures
        within_bounds(joined(s, p).pending),
{
    reveal(Seq::filter);
    let after = s.pending.push(p);
    assert(after.drop_last() == s.pending);
    assert forall|k: (Seq<char>, Seq<char>)| #[trigger] of_key(after, k).len()
        <= MAX_PER_CONVERSATION by {
        assert(of_key(s.pending, k).len() <= MAX_PER_CONVERSATION);
    }
    assert forall|t: Seq<char>| #[trigger] of_tenant(after, t).len() <= MAX_PER_TENANT by {
        assert(of_tenant(s.pending, t).len() <= MAX_PER_TENANT);
    }
}

proof fn lemma_fewer(list: Seq<Waiting>, i: int, p: spec_fn(Waiting) -> bool)
    requires
        0 <= i < list.len(),
    ensures
        list.remove(i).filter(p).len() <= list.filter(p).len(),
        total_bytes(list.remove(i)) <= total_bytes(list),
    decreases list.len(),
{
    reveal(Seq::filter);
    if i == list.len() - 1 {
        assert(list.remove(i) == list.drop_last());
    } else {
        lemma_fewer(list.drop_last(), i, p);
        assert(list.remove(i).drop_last() == list.drop_last().remove(i));
        assert(list.remove(i).last() == list.last());
    }
}

/// Taking a request out keeps what waits within its bounds.
pub proof fn law_removal_is_bounded(s: Plan, i: int)
    requires
        within_bounds(s.pending),
        0 <= i < s.pending.len(),
    ensures
        within_bounds(scheduler::without(s, i).pending),
{
    let after = s.pending.remove(i);
    lemma_fewer(s.pending, i, |p: Waiting| true);
    assert forall|k: (Seq<char>, Seq<char>)| #[trigger] of_key(after, k).len()
        <= MAX_PER_CONVERSATION by {
        lemma_fewer(s.pending, i, |p: Waiting| p.key == k);
        assert(of_key(s.pending, k).len() <= MAX_PER_CONVERSATION);
    }
    assert forall|t: Seq<char>| #[trigger] of_tenant(after, t).len() <= MAX_PER_TENANT by {
        lemma_fewer(s.pending, i, |p: Waiting| p.key.0 == t);
        assert(of_tenant(s.pending, t).len() <= MAX_PER_TENANT);
    }
}

/// Starting what was selected never makes more requests use capacity than may, starts no
/// second request of a running conversation, and holds further starts until it is dispatched.
pub proof fn law_start_within_capacity(s: Plan, c: Config, now: u128)
    requires
        scheduler::selection(s, c, now) is Some,
        s.running.dom().finite(),
    ensures
        ({
            let i = scheduler::selected_position(s, c, now)->0;
            let after = dispatched(s, i, now);
            &&& scheduler::load(after) <= scheduler::running_cap(after, c)
            &&& !s.running.contains_key(s.pending[i].key)
            &&& scheduler::selected_position(after, c, now) is None
        }),
{
    scheduler::law_selection_is_startable(s, c, now);
}

/// After two starts of tool work in a row the conversation has had its precedence, and any
/// other start gives it back.
pub proof fn law_streak_counts(s: Plan, key: (Seq<char>, Seq<char>), other: (Seq<char>, Seq<char>))
    ensures
        ({
            let once = next_streak(None, Kind::Tool, key);
            let twice = next_streak(once, Kind::Tool, key);
            &&& once == Some((key, 1u8))
            &&& scheduler::streaked((Plan { tool_streak: twice, ..s }), key)
            &&& next_streak(twice, Kind::User, other) is None
            &&& other != key ==> next_streak(twice, Kind::Tool, other) == Some((other, 1u8))
        }),
{
}

/// A cancelled request that does not run yet never starts while the cancellation is remembered,
/// which is for a minute: whatever else changes until then, it gives up where it waits, and
/// where it comes again it does not get to wait. It is told so unless it was recorded before,
/// when it is told that.
pub proof fn law_cancelled_never_starts(
    s: Plan,
    tenant: Seq<char>,
    id: Seq<char>,
    now: u128,
    t: Plan,
    c: Config,
    name: Seq<char>,
    deadline: u128,
    later: u128,
    p: Waiting,
    wall: u64,
    r: Result<Ticket, Rejection>,
    after: Plan,
)
    requires
        cancellation(s, tenant, id, now) == Ok::<Cancellation, Rejection>(Cancellation::Noted),
        now <= LAST_INSTANT,
        t.cancelled == after_cancellation(s, tenant, id, now).cancelled,
        now <= later < now + CANCELLED_FOR,
        p.id == id,
        p.key.0 == tenant,
        enqueued(t, p, later, wall, r, after),
    ensures
        giving_up(t, c, id, (tenant, name), deadline, later) == Some(Rejection::Cancelled),
        r is Err,
        after.pending == t.pending,
        match journal::refusal(journal::remembered(t.journal.records, wall), id, p.fingerprint) {
            None => r == Err::<Ticket, Rejection>(Rejection::Cancelled),
            Some(e) => r == Err::<Ticket, Rejection>(e),
        },
{
    assert(t.cancelled.contains_key((tenant, id)));
    assert(uncancelled(recalled(t, wall), later).cancelled.contains_key((tenant, id)));
}

/// A body is taken where it has 32 mebibytes at most, where with it all bodies have 128 at most,
/// and where fewer requests are inside than may run and 24 more.
pub proof fn law_what_bodies_are_taken(s: Plan, c: Config, bytes: usize)
    ensures
        ({
            let most: int = if s.max_running == 0 {
                c.max_running + 24
            } else {
                s.max_running + 24
            };
            let fits = s.inbound < most && s.bytes + bytes <= 134_217_728;
            &&& admits(s, c, bytes) == Some(Rejection::TooLarge) <==> bytes > 33_554_432
            &&& admits(s, c, bytes) == Some(Rejection::Full) <==> bytes <= 33_554_432 && !fits
            &&& admits(s, c, bytes) is None <==> bytes <= 33_554_432 && fits
        }),
{
}

/// A request waits until its deadline, and no longer than the longest wait; otherwise it waits as
/// it is, under a name that its tenant and its identifier make.
pub proof fn law_waits_are_bounded(p: Waiting, c: Config, now: u128)
    requires
        now + c.timeout <= LAST_INSTANT,
    ensures
        ({
            let q = prepared(p, c, now);
            &&& q.deadline <= p.deadline && q.deadline <= now + c.timeout
            &&& q.deadline == p.deadline || q.deadline == now + c.timeout
            &&& q.id == digest::pair_digest(p.key.0, p.id)
            &&& q == (Waiting { id: q.id, deadline: q.deadline, ..p })
        }),
{
}

/// A conversation had its last turn at least some time ago, and nothing of it runs or waits.
pub open spec fn rests_for(
    s: Plan,
    key: (Seq<char>, Seq<char>),
    t: Timing,
    now: u128,
    time: int,
) -> bool {
    &&& t.finished matches Some(at) && (time <= 0 || now >= at + time)
    &&& !s.running.contains_key(key)
    &&& forall|i: int| 0 <= i < s.pending.len() ==> (#[trigger] s.pending[i]).key != key
}

/// Of a conversation that rests as long as every gap and as long as idle ones are kept, nothing is
/// remembered any more; all else stays.
pub proof fn law_what_is_remembered_of_conversations(
    s: Plan,
    c: Config,
    now: u128,
    key: (Seq<char>, Seq<char>),
)
    ensures
        ({
            let after = retired(s, c, now);
            let old = s.bindings.contains_key(key) && rests_for(
                s,
                key,
                s.bindings[key],
                now,
                c.idle_ttl as int,
            ) && rests_for(s, key, s.bindings[key], now, c.gap as int) && rests_for(
                s,
                key,
                s.bindings[key],
                now,
                c.user_gap as int,
            ) && rests_for(s, key, s.bindings[key], now, c.tool_gap as int);
            &&& after == (Plan { bindings: after.bindings, ..s })
            &&& after.bindings.contains_key(key) <==> s.bindings.contains_key(key) && !old
            &&& after.bindings.contains_key(key) ==> after.bindings[key] == s.bindings[key]
        }),
{
    let t = s.bindings[key];
    lemma_rests_for(s, key, t, now, c.idle_ttl);
    lemma_rests_for(s, key, t, now, c.gap);
    lemma_rests_for(s, key, t, now, c.user_gap);
    lemma_rests_for(s, key, t, now, c.tool_gap);
    lemma_rests_for(s, key, t, now, clock::larger(longest_gap(c), c.idle_ttl));
}

proof fn lemma_rests_for(
    s: Plan,
    key: (Seq<char>, Seq<char>),
    t: Timing,
    now: u128,
    time: u128,
)
    ensures
        rests_for(s, key, t, now, time as int) <==> idle_for(
            s.running,
            s.pending,
            key,
            t,
            now,
            time,
        ),
{
    assert(scheduler::has_key(s.pending, key) <==> !forall|i: int|
        0 <= i < s.pending.len() ==> (#[trigger] s.pending[i]).key != key);
}

/// The timing of at most 1024 conversations is kept. A further one takes the place of one that
/// rests as long as every gap, and of none that has had a turn since another such one had.
pub proof fn law_room_for_a_conversation(
    s: Plan,
    c: Config,
    now: u128,
    key: (Seq<char>, Seq<char>),
    after: Map<(Seq<char>, Seq<char>), Timing>,
    gone: (Seq<char>, Seq<char>),
    other: (Seq<char>, Seq<char>),
)
    requires
        room_made(s, c, now, key, after),
    ensures
        s.bindings.dom().len() < 1024 || s.bindings.contains_key(key) ==> after == s.bindings,
        s.bindings.dom().finite() && s.bindings.dom().len() <= 1024 && s.bindings.dom().len() == 1024
            && !s.bindings.contains_key(key) ==> after.dom().len() == 1023,
        s.bindings.contains_key(gone) && !after.contains_key(gone) ==> {
            &&& rests_for(s, gone, s.bindings[gone], now, c.gap as int)
            &&& rests_for(s, gone, s.bindings[gone], now, c.user_gap as int)
            &&& rests_for(s, gone, s.bindings[gone], now, c.tool_gap as int)
            &&& s.bindings.contains_key(other) && rests_for(
                s,
                other,
                s.bindings[other],
                now,
                c.gap as int,
            ) && rests_for(s, other, s.bindings[other], now, c.user_gap as int) && rests_for(
                s,
                other,
                s.bindings[other],
                now,
                c.tool_gap as int,
            ) ==> s.bindings[gone].finished->0 <= s.bindings[other].finished->0
        },
        after.contains_key(other) ==> s.bindings.contains_key(other) && after[other]
            == s.bindings[other],
{
    if crowded(s, key) {
        let k = choose|k: (Seq<char>, Seq<char>)| #[trigger]
            table::is_least(s.bindings, idle_since(s, c, now), k) && after == s.bindings.remove(k);
        assert(s.bindings.contains_key(k));
        assert(after.dom() =~= s.bindings.dom().remove(k));
        let t = s.bindings[k];
        lemma_rests_for(s, k, t, now, longest_gap(c));
        lemma_rests_for(s, other, s.bindings[other], now, longest_gap(c));
        assert((idle_since(s, c, now))(k, t) is Some);
        if s.bindings.contains_key(gone) && !after.contains_key(gone) {
            assert(gone == k);
        }
    }
}

/// A new conversation is turned away only where 1024 are kept and each of them has had a turn
/// within its gaps, runs or waits.
pub proof fn law_when_there_is_no_room(
    s: Plan,
    c: Config,
    now: u128,
    key: (Seq<char>, Seq<char>),
    other: (Seq<char>, Seq<char>),
)
    requires
        no_room(s, c, now, key),
    ensures
        s.bindings.dom().len() >= 1024 && !s.bindings.contains_key(key),
        s.bindings.contains_key(other) ==> !rests_for(s, other, s.bindings[other], now, c.gap as int)
            || !rests_for(s, other, s.bindings[other], now, c.user_gap as int) || !rests_for(
            s,
            other,
            s.bindings[other],
            now,
            c.tool_gap as int,
        ),
{
    if s.bindings.contains_key(other) {
        assert((idle_since(s, c, now))(other, s.bindings[other]) is None);
        lemma_rests_for(s, other, s.bindings[other], now, longest_gap(c));
    }
}

/// The bytes of what waits are those of each request.
pub proof fn law_bytes_add_up(list: Seq<Waiting>, p: Waiting)
    ensures
        total_bytes(Seq::empty()) == 0,
        total_bytes(list.push(p)) == total_bytes(list) + p.bytes,
{
    assert(list.push(p).drop_last() =~= list);
}

/// A request of that name waits, or was started and is not over.
pub open spec fn is_known(s: Plan, id: Seq<char>) -> bool {
    ||| s.attempts.contains_key(id)
    ||| exists|i: int| 0 <= i < s.pending.len() && (#[trigger] s.pending[i]).id == id
}

/// A request does not get to wait where it was cancelled, where it waits or runs already, where
/// 24 requests or 64 mebibytes wait, or where two of its conversation or eight of its tenant do;
/// the first of these that holds is what it is told. Otherwise it does.
pub proof fn law_who_gets_to_wait(s: Plan, p: Waiting)
    ensures
        ({
            let r = waiting_refusal(s, p);
            let cancelled = s.cancelled.contains_key((p.key.0, p.id));
            let full = s.pending.len() >= 24 || total_bytes(s.pending) + p.bytes > 67_108_864;
            let limited = s.pending.filter(|q: Waiting| q.key == p.key).len() >= 2
                || s.pending.filter(|q: Waiting| q.key.0 == p.key.0).len() >= 8;
            &&& r == Some(Rejection::Cancelled) <==> cancelled
            &&& r == Some(Rejection::Duplicate) || r == Some(Rejection::Conflict) <==> !cancelled
                && is_known(s, p.id)
            &&& r == Some(Rejection::Full) <==> !cancelled && !is_known(s, p.id) && full
            &&& r == Some(Rejection::Limited) <==> !cancelled && !is_known(s, p.id) && !full
                && limited
            &&& r is None <==> !cancelled && !is_known(s, p.id) && !full && !limited
        }),
{
    scheduler::lemma_position_of_id(s.pending, p.id);
    assert(is_known(s, p.id) <==> known_fingerprint(s, p.id) is Some);
}

/// A request that waits or runs already is told that it does where it is the same one, and that
/// its name is taken where it is not. One that waits is what counts.
pub proof fn law_same_request_or_another(s: Plan, p: Waiting, i: int)
    requires
        !s.cancelled.contains_key((p.key.0, p.id)),
    ensures
        0 <= i < s.pending.len() && s.pending[i].id == p.id && (forall|e: int|
            0 <= e < i ==> (#[trigger] s.pending[e]).id != p.id) ==> {
            &&& s.pending[i].fingerprint == p.fingerprint ==> waiting_refusal(s, p) == Some(
                Rejection::Duplicate,
            )
            &&& s.pending[i].fingerprint != p.fingerprint ==> waiting_refusal(s, p) == Some(
                Rejection::Conflict,
            )
        },
        s.attempts.contains_key(p.id) && (forall|e: int|
            0 <= e < s.pending.len() ==> (#[trigger] s.pending[e]).id != p.id) ==> {
            &&& s.attempts[p.id] == p.fingerprint ==> waiting_refusal(s, p) == Some(
                Rejection::Duplicate,
            )
            &&& s.attempts[p.id] != p.fingerprint ==> waiting_refusal(s, p) == Some(
                Rejection::Conflict,
            )
        },
{
    scheduler::lemma_position_of_id(s.pending, p.id);
    if 0 <= i < s.pending.len() && s.pending[i].id == p.id && (forall|e: int|
        0 <= e < i ==> (#[trigger] s.pending[e]).id != p.id) {
        if scheduler::position_of_id(s.pending, p.id) is Some {
            let first = scheduler::position_of_id(s.pending, p.id)->0;
            if first < i {
                assert(s.pending[first].id != p.id);
            }
            if i < first {
                assert(s.pending[i].id != p.id);
            }
        }
    }
}

/// A request joins behind all that wait; its tenant and its conversation keep their places where
/// they have some, and otherwise go behind all others.
pub proof fn law_new_requests_join_at_the_end(s: Plan, p: Waiting)
    ensures
        ({
            let after = joined(s, p);
            &&& after == (Plan {
                pending: s.pending.push(p),
                tenants: after.tenants,
                conversations: after.conversations,
                ..s
            })
            &&& s.tenants.contains(p.key.0) ==> after.tenants == s.tenants
            &&& !s.tenants.contains(p.key.0) ==> after.tenants == s.tenants.push(p.key.0)
            &&& s.conversations.contains(p.key) ==> after.conversations == s.conversations
            &&& !s.conversations.contains(p.key) ==> after.conversations == s.conversations.push(
                p.key,
            )
        }),
{
}

/// Exactly the cancellations whose time is not over are remembered.
pub proof fn law_which_cancellations_stay(
    s: Plan,
    now: u128,
    key: (Seq<char>, Seq<char>),
)
    ensures
        uncancelled(s, now).cancelled.contains_key(key) <==> s.cancelled.contains_key(key)
            && s.cancelled[key] > now,
        uncancelled(s, now).cancelled.contains_key(key) ==> uncancelled(s, now).cancelled[key]
            == s.cancelled[key],
        uncancelled(s, now) == (Plan { cancelled: uncancelled(s, now).cancelled, ..s }),
{
}

/// A request that waits gives up where, first of all, it was cancelled; then where nothing is
/// served, where the delay that the service asked for lasts beyond its deadline, where what became
/// of earlier requests has to be found out by hand first, and where its time is over. Otherwise it
/// waits on.
pub proof fn law_why_a_request_gives_up(
    s: Plan,
    c: Config,
    id: Seq<char>,
    key: (Seq<char>, Seq<char>),
    deadline: u128,
    now: u128,
)
    ensures
        ({
            let r = giving_up(s, c, id, key, deadline, now);
            let cancelled = s.cancelled.contains_key((key.0, id));
            let closed = s.paused || s.throttle.blocked;
            let late = s.throttle.until is Some && now < s.throttle.until->0 && deadline
                <= s.throttle.until->0;
            let lost = s.quarantined.dom().len();
            let most: int = if s.max_running == 0 {
                c.max_running as int
            } else {
                s.max_running as int
            };
            let stuck = s.uncertain || (!c.automatic_recovery && (lost >= most || (
            s.throttle.limit > 0 && lost >= s.throttle.limit) || exists|other: Seq<char>|
                #[trigger] s.quarantined.contains_key(other) && s.quarantined[other] == Some(
                    digest::pair_digest(key.0, key.1),
                )));
            &&& cancelled <==> r == Some(Rejection::Cancelled)
            &&& !cancelled && closed <==> r == Some(Rejection::Paused)
            &&& !cancelled && !closed && late <==> r is Some && r->0 is Cooldown
            &&& !cancelled && !closed && !late && stuck <==> r == Some(Rejection::Unavailable)
            &&& !cancelled && !closed && !late && !stuck && deadline <= now <==> r == Some(
                Rejection::Expired,
            )
            &&& !cancelled && !closed && !late && !stuck && now < deadline <==> r is None
        }),
{
    assert(scheduler::isolated(s, key) <==> exists|other: Seq<char>| #[trigger]
        s.quarantined.contains_key(other) && s.quarantined[other] == Some(
            digest::pair_digest(key.0, key.1),
        ));
}

/// The seconds that a request is told to wait are enough: after them the delay is over, and a
/// second less would not be enough, or just so.
pub proof fn law_told_delay_is_enough(
    s: Plan,
    c: Config,
    id: Seq<char>,
    key: (Seq<char>, Seq<char>),
    deadline: u128,
    now: u128,
)
    requires
        giving_up(s, c, id, key, deadline, now) is Some,
        giving_up(s, c, id, key, deadline, now)->0 is Cooldown,
        s.throttle.until is Some,
        s.throttle.until->0 <= 18_446_744_073_709_551_614_000_000_000,
    ensures
        giving_up(s, c, id, key, deadline, now)->0 matches Rejection::Cooldown(seconds) && {
            &&& now + seconds * 1_000_000_000 > s.throttle.until->0
            &&& now + (seconds - 1) * 1_000_000_000 <= s.throttle.until->0
        },
{
    let left = (s.throttle.until->0 - now) as u128;
    assert(left / SECOND <= u64::MAX - 1) by (nonlinear_arith)
        requires
            left <= 18_446_744_073_709_551_614_000_000_000,
            SECOND == 1_000_000_000,
    ;
    assert(left == (left / SECOND) * SECOND + left % SECOND) by (nonlinear_arith)
        requires
            SECOND == 1_000_000_000,
    ;
}

/// A request asks again by its deadline at the latest, and by each instant still to come at which
/// it might start: when the next start may be, when the delay is over and when its conversation
/// has rested. It asks no earlier than at the first of them.
pub proof fn law_when_a_request_asks_again(
    s: Plan,
    c: Config,
    id: Seq<char>,
    key: (Seq<char>, Seq<char>),
    deadline: u128,
    now: u128,
)
    ensures
        ({
            let wake = wake_at(s, c, id, key, deadline, now);
            let rested = gap_end(s, c, id, key, now);
            &&& wake <= deadline
            &&& s.next_start is Some && s.next_start->0 > now ==> wake <= s.next_start->0
            &&& s.throttle.until is Some && s.throttle.until->0 > now ==> wake
                <= s.throttle.until->0
            &&& rested is Some && rested->0 > now ==> wake <= rested->0
            &&& wake == deadline || (wake > now && (s.next_start == Some(wake) || s.throttle.until
                == Some(wake) || rested == Some(wake)))
        }),
{
}

/// A conversation has rested for a waiting request when the gap after its last turn is over: the
/// one for the work that it is.
pub proof fn law_when_a_conversation_has_rested(
    s: Plan,
    c: Config,
    i: int,
    key: (Seq<char>, Seq<char>),
    now: u128,
)
    requires
        0 <= i < s.pending.len(),
        forall|e: int| 0 <= e < i ==> (#[trigger] s.pending[e]).id != s.pending[i].id,
    ensures
        ({
            let end = gap_end(s, c, s.pending[i].id, key, now);
            let known = s.bindings.contains_key(key) && s.bindings[key].finished is Some;
            let finished = s.bindings[key].finished->0;
            let kind = signals::kind_of(s.pending[i].evidence, s.bindings[key].signals, now);
            &&& !known ==> end is None
            &&& known && kind == Kind::User && finished + c.user_gap <= LAST_INSTANT ==> end
                == Some((finished + c.user_gap) as u128)
            &&& known && kind == Kind::Tool && finished + c.tool_gap <= LAST_INSTANT ==> end
                == Some((finished + c.tool_gap) as u128)
            &&& known && kind == Kind::Unknown && finished + c.gap <= LAST_INSTANT ==> end == Some(
                (finished + c.gap) as u128,
            )
        }),
{
    let id = s.pending[i].id;
    scheduler::lemma_position_of_id(s.pending, id);
    if scheduler::position_of_id(s.pending, id) is Some {
        let first = scheduler::position_of_id(s.pending, id)->0;
        if first < i {
            assert(s.pending[first].id != id);
        }
        if i < first {
            assert(s.pending[i].id != id);
        }
    }
}

/// A start takes the request out of the queue and makes it the one that is being sent: its
/// conversation runs, its fingerprint is kept, and a conversation that is to be remembered is, with
/// nothing known yet. All other state stays.
pub proof fn law_what_a_start_changes(s: Plan, i: int, now: u128)
    requires
        0 <= i < s.pending.len(),
    ensures
        ({
            let p = s.pending[i];
            let after = dispatched(s, i, now);
            let rest = scheduler::without(s, i);
            &&& after == (Plan {
                running: s.running.insert(p.key, p.id),
                attempts: s.attempts.insert(p.id, p.fingerprint),
                dispatching: Some(p.id),
                bindings: after.bindings,
                tool_streak: after.tool_streak,
                ..rest
            })
            &&& s.bindings.contains_key(p.key) || !p.sticky ==> after.bindings == s.bindings
            &&& !s.bindings.contains_key(p.key) && p.sticky ==> {
                &&& after.bindings.dom() == s.bindings.dom().insert(p.key)
                &&& after.bindings[p.key].finished is None
                &&& after.bindings[p.key].signals.finished is None
                &&& !after.bindings[p.key].signals.output.valid
                &&& forall|k: (Seq<char>, Seq<char>)|
                    k != p.key && s.bindings.contains_key(k) ==> #[trigger] after.bindings[k]
                        == s.bindings[k]
            }
        }),
{
    let p = s.pending[i];
    if !s.bindings.contains_key(p.key) && p.sticky {
        assert(dispatched(s, i, now).bindings.dom() =~= s.bindings.dom().insert(p.key));
    }
}

/// Starts of tool work of one conversation count one after the other; any other start ends the
/// row.
pub proof fn law_rows_of_tool_work(
    streak: Option<((Seq<char>, Seq<char>), u8)>,
    kind: Kind,
    key: (Seq<char>, Seq<char>),
)
    ensures
        ({
            let next = next_streak(streak, kind, key);
            &&& kind != Kind::Tool ==> next is None
            &&& kind == Kind::Tool ==> (next matches Some((to, count)) && {
                &&& to == key
                &&& match streak {
                    Some((from, before)) => {
                        &&& from == key && before < 255 ==> count == before + 1
                        &&& from == key && before == 255 ==> count == 255
                        &&& from != key ==> count == 1
                    },
                    None => count == 1,
                }
            })
        }),
{
}

/// A request that runs, unless it is just being sent, is to be ended where it has an attempt.
/// Any other is noted for a minute, as long as fewer than 128 are or it is one of them.
pub proof fn law_what_a_cancellation_does(s: Plan, tenant: Seq<char>, id: Seq<char>, now: u128)
    requires
        now <= LAST_INSTANT,
    ensures
        ({
            let r = cancellation(s, tenant, id, now);
            let after = after_cancellation(s, tenant, id, now);
            let cleaned = uncancelled(s, now).cancelled;
            let runs = s.dispatching != Some(id) && exists|key: (Seq<char>, Seq<char>)| #[trigger]
                s.running.contains_key(key) && key.0 == tenant && s.running[key] == id;
            let fits = cleaned.dom().len() < 128 || cleaned.contains_key((tenant, id));
            &&& r == Ok::<_, Rejection>(Cancellation::Finalize) <==> runs
                && s.attempts.contains_key(id)
            &&& r == Ok::<_, Rejection>(Cancellation::Running) <==> runs
                && !s.attempts.contains_key(id)
            &&& r == Ok::<_, Rejection>(Cancellation::Noted) <==> !runs && fits
            &&& r == Err::<Cancellation, _>(Rejection::Full) <==> !runs && !fits
            &&& runs ==> after == s
            &&& !runs && fits ==> after == (Plan {
                cancelled: cleaned.insert((tenant, id), (now + 60_000_000_000) as u128),
                ..s
            })
            &&& !runs && !fits ==> after == (Plan { cancelled: cleaned, ..s })
        }),
{
    assert(running_as(s, tenant, id) <==> exists|key: (Seq<char>, Seq<char>)| #[trigger]
        s.running.contains_key(key) && key.0 == tenant && s.running[key] == id);
}

/// A fresh process starts nothing for the longest of the gaps, has nothing waiting or running,
/// and treats as used the capacity of every request whose outcome it does not know. It can serve
/// only where the conversation of each of them is known. A delay that is not over is waited out,
/// and a block stays.
pub proof fn law_what_a_fresh_process_takes_over(
    c: Config,
    j: Ledger,
    now: u128,
    wall: u64,
    quarantined: Map<Seq<char>, Option<Seq<char>>>,
)
    requires
        now + c.gap <= LAST_INSTANT,
        now + c.user_gap <= LAST_INSTANT,
        now + c.tool_gap <= LAST_INSTANT,
        now + c.start_gap <= LAST_INSTANT,
    ensures
        ({
            let s = restored(c, j, now, wall, quarantined);
            let left = journal::remaining_cooldown(j.cooldown_until, wall);
            let longest = c.gap > 0 || c.user_gap > 0 || c.tool_gap > 0 || c.start_gap > 0;
            &&& s.pending.len() == 0 && s.tenants.len() == 0 && s.conversations.len() == 0
            &&& s.running == Map::<(Seq<char>, Seq<char>), Seq<char>>::empty()
            &&& s.bindings == Map::<(Seq<char>, Seq<char>), Timing>::empty()
            &&& s.cancelled == Map::<(Seq<char>, Seq<char>), u128>::empty()
            &&& s.attempts == Map::<Seq<char>, Seq<char>>::empty()
            &&& s.quarantined == quarantined && s.journal == j
            &&& !s.paused && s.dispatching is None && s.tool_streak is None && s.inbound == 0
                && s.bytes == 0
            &&& s.uncertain <==> exists|id: Seq<char>| #[trigger]
                quarantined.contains_key(id) && quarantined[id] is None
            &&& s.next_start is Some <==> longest
            &&& s.next_start matches Some(next) ==> {
                &&& next >= now + c.gap && next >= now + c.user_gap && next >= now + c.tool_gap
                    && next >= now + c.start_gap
                &&& next == now + c.gap || next == now + c.user_gap || next == now + c.tool_gap
                    || next == now + c.start_gap
            }
            &&& s.max_running == c.max_running
            &&& 0 < j.concurrency <= c.max_running ==> s.throttle.limit == j.concurrency
            &&& j.concurrency == 0 || j.concurrency > c.max_running ==> s.throttle.limit
                == c.max_running
            &&& j.account_blocked ==> s.throttle.blocked
            &&& left is None ==> s.throttle.until is None && s.throttle.blocked
                == j.account_blocked
            &&& left is Some && now + left->0 <= LAST_INSTANT ==> s.throttle.until == Some(
                (now + left->0) as u128,
            ) && s.throttle.blocked == j.account_blocked
            &&& left is Some && now + left->0 > LAST_INSTANT ==> s.throttle.blocked
            &&& s.throttle.limited == 0 && s.throttle.failures == 0 && s.throttle.successes == 0
        }),
{
}

/// The summary for operators gives each of its numbers as it is; what runs is what runs and what
/// may still run upstream, and a delay is given in seconds that are enough.
pub proof fn law_summary_for_operators(s: Plan, recovery: Tree, now: u128, c: Config)
    requires
        s.running.dom().len() + s.quarantined.dom().len() <= u64::MAX,
        s.pending.len() <= u64::MAX,
        s.bindings.dom().len() <= u64::MAX,
        s.throttle.until is Some ==> s.throttle.until->0 <= 18_446_744_073_709_551_614_000_000_000,
    ensures
        ({
            let t = status_tree(s, recovery, now, c);
            let seconds = t.at("cooldown_seconds"@).number();
            &&& t.at("pending"@).number() == Some(s.pending.len() as u64)
            &&& t.at("running"@).number() == Some(
                (s.running.dom().len() + s.quarantined.dom().len()) as u64,
            )
            &&& t.at("max_running"@).number() == Some(s.max_running as u64)
            &&& t.at("conversations"@).number() == Some(s.bindings.dom().len() as u64)
            &&& t.at("body_bytes_reserved"@).number() == Some(s.bytes as u64)
            &&& t.at("outcome_unknown"@) == Tree::Bool(
                s.uncertain || s.quarantined.dom().len() > 0,
            )
            &&& t.at("quarantined"@).number() == Some(s.quarantined.dom().len() as u64)
            &&& t.at("worker_fault"@) == Tree::Bool(s.uncertain)
            &&& t.at("automatic_recovery"@) == Tree::Bool(c.automatic_recovery)
            &&& t.at("recovery"@) == recovery
            &&& t.at("effective_max_running"@).number() == Some(s.throttle.limit as u64)
            &&& t.at("paused"@) == Tree::Bool(s.paused)
            &&& t.at("account_unavailable"@) == Tree::Bool(s.throttle.blocked)
            &&& t.at("account_unavailable_reason"@).text() == (match s.throttle.blocked_reason {
                Some(reason) => Some(reason.name()),
                None => None,
            })
            &&& seconds is Some
            &&& s.throttle.until is None || s.throttle.until->0 <= now ==> seconds == Some(0u64)
            &&& s.throttle.until is Some && s.throttle.until->0 > now ==> {
                &&& now + seconds->0 * 1_000_000_000 >= s.throttle.until->0
                &&& now + (seconds->0 - 1) * 1_000_000_000 < s.throttle.until->0
            }
        }),
{
    lemma_summary_names();
    if s.throttle.until is Some {
        let left = clock::elapsed(s.throttle.until->0, now) as u128;
        assert(left / SECOND <= u64::MAX - 1) by (nonlinear_arith)
            requires
                left <= 18_446_744_073_709_551_614_000_000_000,
                SECOND == 1_000_000_000,
        ;
        assert(left == (left / SECOND) * SECOND + left % SECOND) by (nonlinear_arith)
            requires
                SECOND == 1_000_000_000,
        ;
    }
}

proof fn lemma_summary_names()
    ensures
        "pending"@.len() == 7 && "pending"@[0] == 'p',
        "running"@.len() == 7 && "running"@[0] == 'r',
        "max_running"@.len() == 11 && "max_running"@[0] == 'm',
        "conversations"@.len() == 13,
        "body_bytes_reserved"@.len() == 19 && "body_bytes_reserved"@[0] == 'b',
        "outcome_unknown"@.len() == 15,
        "quarantined"@.len() == 11 && "quarantined"@[0] == 'q',
        "worker_fault"@.len() == 12,
        "automatic_recovery"@.len() == 18,
        "recovery"@.len() == 8,
        "effective_max_running"@.len() == 21,
        "paused"@.len() == 6,
        "account_unavailable"@.len() == 19 && "account_unavailable"@[0] == 'a',
        "account_unavailable_reason"@.len() == 26,
        "cooldown_seconds"@.len() == 16,
{
    reveal_strlit("pending");
    reveal_strlit("running");
    reveal_strlit("max_running");
    reveal_strlit("conversations");
    reveal_strlit("body_bytes_reserved");
    reveal_strlit("outcome_unknown");
    reveal_strlit("quarantined");
    reveal_strlit("worker_fault");
    reveal_strlit("automatic_recovery");
    reveal_strlit("recovery");
    reveal_strlit("effective_max_running");
    reveal_strlit("paused");
    reveal_strlit("account_unavailable");
    reveal_strlit("account_unavailable_reason");
    reveal_strlit("cooldown_seconds");
}

/// A request is first held against what is recorded, of which what is over for long is forgotten,
/// and then against what waits, of which cancellations that are over are forgotten; the first
/// refusal is what it is told, and nothing else changes. Otherwise it gets a place for itself and
/// joins those that wait.
pub proof fn law_what_comes_of_a_request(
    s: Plan,
    p: Waiting,
    now: u128,
    wall: u64,
    r: Result<Ticket, Rejection>,
    after: Plan,
)
    requires
        enqueued(s, p, now, wall, r, after),
    ensures
        ({
            let known = journal::remembered(s.journal.records, wall);
            let recorded = journal::refusal(known, p.id, p.fingerprint);
            let waiting = uncancelled(s, now);
            let refused = waiting_refusal(waiting, p);
            &&& after.journal == (Ledger { records: known, ..s.journal })
            &&& recorded matches Some(e) ==> r == Err::<Ticket, Rejection>(e) && after == (Plan {
                journal: after.journal,
                ..s
            })
            &&& recorded is None && refused is Some ==> r == Err::<Ticket, Rejection>(refused->0)
                && after == (Plan { journal: after.journal, ..waiting })
            &&& recorded is None && refused is None ==> {
                &&& r matches Ok(t) && t.id@ == p.id && t.key@ == p.key && t.deadline == p.deadline
                &&& after.pending == s.pending.push(p)
                &&& after.tenants == joined(s, p).tenants
                &&& after.conversations == joined(s, p).conversations
                &&& after.running == s.running && after.bindings == s.bindings
                &&& after.cancelled == waiting.cancelled
            }
        }),
{
    let ready = uncancelled(recalled(s, wall), now);
    let waiting = uncancelled(s, now);
    assert(ready.cancelled == waiting.cancelled);
    assert(waiting_refusal(ready, p) == waiting_refusal(waiting, p));
}

/// What starts is handed out as it waited.
pub proof fn law_a_lease_is_for_its_request(l: Lease, p: Waiting)
    requires
        is_lease(l, p),
    ensures
        l.id@ == p.id,
        l.key@ == p.key,
        l.fingerprint@ == p.fingerprint,
        l.evidence@ == p.evidence,
        l.deadline == p.deadline,
{
}

/// A body that is taken counts as one more with all its bytes, and giving its room back leaves
/// everything as it was before.
pub proof fn law_room_is_given_back(s: Plan, c: Config, bytes: usize)
    requires
        admits(s, c, bytes) is None,
        s.inbound < usize::MAX,
    ensures
        accepted(s, bytes).inbound == s.inbound + 1,
        accepted(s, bytes).bytes == s.bytes + bytes,
        accepted(s, bytes) == (Plan {
            inbound: accepted(s, bytes).inbound,
            bytes: accepted(s, bytes).bytes,
            ..s
        }),
        discharged(accepted(s, bytes), bytes) == s,
{
}

/// Another number of requests that may run holds from then on: an account that may use all of the
/// old one may use all of the new one, and one that may use fewer keeps that, up to the new one.
/// Nothing else changes.
pub proof fn law_changing_how_many_may_run(s: Plan, limit: usize)
    ensures
        ({
            let after = limited(s, limit);
            &&& after.max_running == limit
            &&& s.throttle.limit == s.max_running ==> after.throttle.limit == limit
            &&& s.throttle.limit != s.max_running && s.throttle.limit <= limit
                ==> after.throttle.limit == s.throttle.limit
            &&& s.throttle.limit > limit ==> after.throttle.limit == limit
            &&& after == (Plan {
                max_running: limit,
                throttle: (Throttle { limit: after.throttle.limit, ..s.throttle }),
                ..s
            })
        }),
{
}

/// Where 1024 conversations are kept and each of them has had a turn within its gaps, runs or
/// waits, a new one finds no room.
pub proof fn law_busy_conversations_leave_no_room(
    s: Plan,
    c: Config,
    now: u128,
    key: (Seq<char>, Seq<char>),
)
    requires
        s.bindings.dom().len() >= 1024,
        !s.bindings.contains_key(key),
        forall|k: (Seq<char>, Seq<char>)| #[trigger]
            s.bindings.contains_key(k) ==> !rests_for(s, k, s.bindings[k], now, c.gap as int)
                || !rests_for(s, k, s.bindings[k], now, c.user_gap as int) || !rests_for(
                s,
                k,
                s.bindings[k],
                now,
                c.tool_gap as int,
            ),
    ensures
        no_room(s, c, now, key),
{
    assert forall|k: (Seq<char>, Seq<char>)| #[trigger] s.bindings.contains_key(k) implies (
    idle_since(s, c, now))(k, s.bindings[k]) is None by {
        lemma_rests_for(s, k, s.bindings[k], now, longest_gap(c));
        lemma_rests_for(s, k, s.bindings[k], now, c.gap);
        lemma_rests_for(s, k, s.bindings[k], now, c.user_gap);
        lemma_rests_for(s, k, s.bindings[k], now, c.tool_gap);
    }
}

} // verus!
