//! Bounded, tenant-fair selection among waiting requests with independent conversations.
use crate::clock;
use crate::clock::since;
use crate::clock::SECOND;
use crate::digest;
use crate::digest::digest_pair;
use crate::journal::Journal;
use crate::journal::Ledger;
use crate::signals;
use crate::signals::Evidence;
use crate::signals::EvidenceView;
use crate::signals::Kind;
use crate::signals::Signals;
use crate::signals::SignalsView;
use crate::table;
use crate::table::Label;
use crate::table::Table;
use crate::text;
use crate::text::same;
use crate::throttle::Throttle;
use vstd::prelude::*;

verus! {

broadcast use {
    vstd::seq_lib::group_seq_properties,
    vstd::map::group_map_axioms,
    vstd::set::group_set_axioms,
};

/// How many requests may wait.
pub const MAX_PENDING: usize = 24;

/// The longest wait.
pub const MAX_QUEUE_WAIT: u128 = 120_000_000_000;

/// The largest request body, in bytes.
pub const MAX_BODY: usize = 33_554_432;

/// How many bytes of request bodies are held at once.
pub const MAX_RESIDENT: usize = 134_217_728;

/// After this many starts in a row tool work loses its precedence.
pub const MAX_TOOL_STREAK: u8 = 2;

/// What the operator sets; all times are durations.
#[derive(Clone, Copy, Debug, PartialEq, Eq, Structural)]
pub struct Config {
    pub automatic_recovery: bool,
    pub max_running: usize,
    pub gap: u128,
    pub user_gap: u128,
    pub tool_gap: u128,
    pub idle_ttl: u128,
    pub start_gap: u128,
    pub timeout: u128,
}

/// A tenant and one of its conversations.
#[derive(Debug)]
pub struct Key(pub String, pub String);

impl View for Key {
    type V = (Seq<char>, Seq<char>);

    open spec fn view(&self) -> (Seq<char>, Seq<char>) {
        (self.0@, self.1@)
    }
}

impl Label for Key {
    fn equals(&self, other: &Self) -> (r: bool) {
        same(&self.0, &other.0) && same(&self.1, &other.1)
    }

    fn duplicate(&self) -> (r: Self) {
        Key(self.0.clone(), self.1.clone())
    }
}

/// The digest under which a conversation is recorded.
pub open spec fn conversation_digest(key: (Seq<char>, Seq<char>)) -> Seq<char> {
    digest::pair_digest(key.0, key.1)
}

impl Key {
    /// The digest under which a conversation is recorded.
    pub fn digest(&self) -> (r: String)
        ensures
            r@ == conversation_digest(self@),
    {
        digest_pair(&self.0, &self.1)
    }
}

/// A request that waits for its turn.
#[derive(Debug)]
pub struct Pending {
    pub id: String,
    pub key: Key,
    pub sticky: bool,
    pub fingerprint: String,
    pub evidence: Evidence,
    pub bytes: usize,
    pub deadline: u128,
}

/// The model of a `Pending`.
pub struct Waiting {
    pub id: Seq<char>,
    pub key: (Seq<char>, Seq<char>),
    pub sticky: bool,
    pub fingerprint: Seq<char>,
    pub evidence: EvidenceView,
    pub bytes: usize,
    pub deadline: u128,
}

impl View for Pending {
    type V = Waiting;

    open spec fn view(&self) -> Waiting {
        Waiting {
            id: self.id@,
            key: self.key@,
            sticky: self.sticky,
            fingerprint: self.fingerprint@,
            evidence: self.evidence@,
            bytes: self.bytes,
            deadline: self.deadline,
        }
    }
}

/// What is known of a conversation's timing.
#[derive(Debug)]
pub struct Binding {
    pub finished: Option<u128>,
    pub signals: Signals,
}

/// The model of a `Binding`.
pub struct Timing {
    pub finished: Option<u128>,
    pub signals: SignalsView,
}

impl View for Binding {
    type V = Timing;

    open spec fn view(&self) -> Timing {
        Timing { finished: self.finished, signals: self.signals@ }
    }
}

/// A request that was started.
#[derive(Debug)]
pub struct Attempt {
    pub fingerprint: String,
}

#[derive(Debug)]
pub struct State {
    pub max_running: usize,
    pub pending: Vec<Pending>,
    pub running: Table<Key, String>,
    /// Tenants with waiting requests; the one that waited longest for a turn is first.
    pub tenants: Vec<String>,
    /// Conversations with waiting requests, in the same order.
    pub conversations: Vec<Key>,
    pub bindings: Table<Key, Binding>,
    pub cancelled: Table<Key, u128>,
    pub next_start: Option<u128>,
    pub uncertain: bool,
    /// Recorded requests, with the digests of their conversations, that may still use
    /// capacity upstream.
    pub quarantined: Table<String, Option<String>>,
    pub paused: bool,
    pub journal: Journal,
    pub throttle: Throttle,
    pub attempts: Table<String, Attempt>,
    pub tool_streak: Option<(Key, u8)>,
    pub dispatching: Option<String>,
    pub inbound: usize,
    pub bytes: usize,
}

/// The model of a `State`.
pub struct Plan {
    pub max_running: usize,
    pub pending: Seq<Waiting>,
    pub running: Map<(Seq<char>, Seq<char>), Seq<char>>,
    pub tenants: Seq<Seq<char>>,
    pub conversations: Seq<(Seq<char>, Seq<char>)>,
    pub bindings: Map<(Seq<char>, Seq<char>), Timing>,
    pub cancelled: Map<(Seq<char>, Seq<char>), u128>,
    pub next_start: Option<u128>,
    pub uncertain: bool,
    pub quarantined: Map<Seq<char>, Option<Seq<char>>>,
    pub paused: bool,
    pub journal: Ledger,
    pub throttle: Throttle,
    pub attempts: Map<Seq<char>, Seq<char>>,
    pub tool_streak: Option<((Seq<char>, Seq<char>), u8)>,
    pub dispatching: Option<Seq<char>>,
    pub inbound: usize,
    pub bytes: usize,
}

pub open spec fn pending_views(list: Seq<Pending>) -> Seq<Waiting> {
    list.map_values(|p: Pending| p@)
}

pub open spec fn key_views(list: Seq<Key>) -> Seq<(Seq<char>, Seq<char>)> {
    list.map_values(|k: Key| k@)
}

pub open spec fn running_view(m: Map<(Seq<char>, Seq<char>), String>) -> Map<
    (Seq<char>, Seq<char>),
    Seq<char>,
> {
    m.map_values(|s: String| s@)
}

pub open spec fn binding_views(m: Map<(Seq<char>, Seq<char>), Binding>) -> Map<
    (Seq<char>, Seq<char>),
    Timing,
> {
    m.map_values(|b: Binding| b@)
}

pub open spec fn quarantine_view(m: Map<Seq<char>, Option<String>>) -> Map<
    Seq<char>,
    Option<Seq<char>>,
> {
    m.map_values(|o: Option<String>| text::text_option(o))
}

pub open spec fn attempt_views(m: Map<Seq<char>, Attempt>) -> Map<Seq<char>, Seq<char>> {
    m.map_values(|a: Attempt| a.fingerprint@)
}

pub open spec fn streak_view(s: Option<(Key, u8)>) -> Option<((Seq<char>, Seq<char>), u8)> {
    match s {
        Some((key, count)) => Some((key@, count)),
        None => None,
    }
}

impl View for State {
    type V = Plan;

    open spec fn view(&self) -> Plan {
        Plan {
            max_running: self.max_running,
            pending: pending_views(self.pending@),
            running: running_view(self.running@),
            tenants: text::texts(self.tenants@),
            conversations: key_views(self.conversations@),
            bindings: binding_views(self.bindings@),
            cancelled: self.cancelled@,
            next_start: self.next_start,
            uncertain: self.uncertain,
            quarantined: quarantine_view(self.quarantined@),
            paused: self.paused,
            journal: self.journal@,
            throttle: self.throttle,
            attempts: attempt_views(self.attempts@),
            tool_streak: streak_view(self.tool_streak),
            dispatching: text::text_option(self.dispatching),
            inbound: self.inbound,
            bytes: self.bytes,
        }
    }
}

/// How many requests may run at once as far as the operator is concerned.
pub open spec fn configured_max(s: Plan, c: Config) -> usize {
    if s.max_running == 0 {
        c.max_running
    } else {
        s.max_running
    }
}

/// How many requests may run at once.
pub open spec fn running_cap(s: Plan, c: Config) -> usize {
    let configured = configured_max(s, c);
    if s.throttle.limit == 0 || s.throttle.limit > configured {
        configured
    } else {
        s.throttle.limit
    }
}

/// How many requests use capacity.
pub open spec fn load(s: Plan) -> nat {
    s.running.dom().len() + s.quarantined.dom().len()
}

/// Whether nothing at all may start now.
pub open spec fn held(s: Plan, c: Config, now: u128) -> bool {
    ||| s.uncertain
    ||| s.paused
    ||| s.throttle.blocked
    ||| (s.throttle.until matches Some(until) && now < until)
    ||| s.dispatching is Some
    ||| load(s) >= running_cap(s, c)
    ||| (s.next_start matches Some(next) && now < next)
}

/// Whether a tenant has a request running.
pub open spec fn busy(s: Plan, tenant: Seq<char>) -> bool {
    exists|key: (Seq<char>, Seq<char>)| #[trigger] s.running.contains_key(key) && key.0 == tenant
}

/// Whether a conversation may still be running upstream.
pub open spec fn isolated(s: Plan, key: (Seq<char>, Seq<char>)) -> bool {
    exists|id: Seq<char>| #[trigger]
        s.quarantined.contains_key(id) && s.quarantined[id] == Some(conversation_digest(key))
}

/// The position of the first request with an identifier.
pub open spec fn position_of_id(list: Seq<Waiting>, id: Seq<char>) -> Option<int>
    decreases list.len(),
{
    if list.len() == 0 {
        None
    } else {
        match position_of_id(list.drop_last(), id) {
            Some(i) => Some(i),
            None => if list.last().id == id {
                Some(list.len() - 1)
            } else {
                None
            },
        }
    }
}

/// The position of the first request of a conversation.
pub open spec fn position_of_key(list: Seq<Waiting>, key: (Seq<char>, Seq<char>)) -> Option<int>
    decreases list.len(),
{
    if list.len() == 0 {
        None
    } else {
        match position_of_key(list.drop_last(), key) {
            Some(i) => Some(i),
            None => if list.last().key == key {
                Some(list.len() - 1)
            } else {
                None
            },
        }
    }
}

/// How a request continues what is known of its conversation.
pub open spec fn kind_in(s: Plan, p: Waiting, now: u128) -> Kind {
    if s.bindings.contains_key(p.key) {
        signals::kind_of(p.evidence, s.bindings[p.key].signals, now)
    } else {
        Kind::Unknown
    }
}

/// The time that has to pass after a conversation's last turn.
pub open spec fn gap_for(kind: Kind, c: Config) -> u128 {
    match kind {
        Kind::User => c.user_gap,
        Kind::Tool => c.tool_gap,
        Kind::Unknown => c.gap,
    }
}

/// Whether enough time has passed since the conversation's last turn.
pub open spec fn ready(s: Plan, c: Config, p: Waiting, now: u128) -> bool {
    s.bindings.contains_key(p.key) ==> (s.bindings[p.key].finished matches Some(finished) ==> now
        >= finished + gap_for(kind_in(s, p, now), c))
}

/// Whether a request could start now.
pub open spec fn startable(s: Plan, c: Config, p: Waiting, now: u128) -> bool {
    ready(s, c, p, now) && p.deadline > now && !s.running.contains_key(p.key) && !isolated(s, p.key)
}

/// The positions of a tenant's requests that could start now, one for each conversation, in
/// the order of the conversations.
pub open spec fn eligible(
    s: Plan,
    c: Config,
    conversations: Seq<(Seq<char>, Seq<char>)>,
    tenant: Seq<char>,
    now: u128,
) -> Seq<int>
    decreases conversations.len(),
{
    if conversations.len() == 0 {
        Seq::empty()
    } else {
        let rest = eligible(s, c, conversations.drop_last(), tenant, now);
        let key = conversations.last();
        match position_of_key(s.pending, key) {
            Some(i) => if key.0 == tenant && startable(s, c, s.pending[i], now) {
                rest.push(i)
            } else {
                rest
            },
            None => rest,
        }
    }
}

/// Whether a request has a second or less left.
pub open spec fn urgent(p: Waiting, now: u128) -> bool {
    clock::elapsed(p.deadline, now) <= SECOND
}

/// The first of the urgent requests with the earliest deadline.
pub open spec fn most_urgent(s: Plan, list: Seq<int>, now: u128) -> Option<int>
    decreases list.len(),
{
    if list.len() == 0 {
        None
    } else {
        let rest = most_urgent(s, list.drop_last(), now);
        let p = s.pending[list.last()];
        match rest {
            Some(i) => if urgent(p, now) && p.deadline < s.pending[i].deadline {
                Some(list.last())
            } else {
                rest
            },
            None => if urgent(p, now) {
                Some(list.last())
            } else {
                None
            },
        }
    }
}

/// Whether a conversation's tool work has had its precedence.
pub open spec fn streaked(s: Plan, key: (Seq<char>, Seq<char>)) -> bool {
    s.tool_streak matches Some((previous, count)) && previous == key && count >= MAX_TOOL_STREAK
}

/// Whether a request is tool work that goes before other work.
pub open spec fn preferred(s: Plan, p: Waiting, now: u128) -> bool {
    kind_in(s, p, now) == Kind::Tool && !streaked(s, p.key)
}

/// The first request that is tool work that goes before other work.
pub open spec fn first_preferred(s: Plan, list: Seq<int>, now: u128) -> Option<int>
    decreases list.len(),
{
    if list.len() == 0 {
        None
    } else {
        match first_preferred(s, list.drop_last(), now) {
            Some(i) => Some(i),
            None => if preferred(s, s.pending[list.last()], now) {
                Some(list.last())
            } else {
                None
            },
        }
    }
}

/// The choice among one tenant's requests: deadlines first, then tool work, then order.
pub open spec fn choice(s: Plan, list: Seq<int>, now: u128) -> Option<int> {
    match most_urgent(s, list, now) {
        Some(i) => Some(i),
        None => match first_preferred(s, list, now) {
            Some(i) => Some(i),
            None => if list.len() > 0 {
                Some(list[0])
            } else {
                None
            },
        },
    }
}

/// The choice for the first tenant that is as busy as asked for and has one.
pub open spec fn choice_among(
    s: Plan,
    c: Config,
    tenants: Seq<Seq<char>>,
    is_busy: bool,
    now: u128,
) -> Option<int>
    decreases tenants.len(),
{
    if tenants.len() == 0 {
        None
    } else {
        match choice_among(s, c, tenants.drop_last(), is_busy, now) {
            Some(i) => Some(i),
            None => if busy(s, tenants.last()) == is_busy {
                choice(s, eligible(s, c, s.conversations, tenants.last(), now), now)
            } else {
                None
            },
        }
    }
}

/// The position of the request that starts next, if one may: tenants without a running
/// request come before the others.
pub open spec fn selected_position(s: Plan, c: Config, now: u128) -> Option<int> {
    if held(s, c, now) {
        None
    } else {
        match choice_among(s, c, s.tenants, false, now) {
            Some(i) => Some(i),
            None => choice_among(s, c, s.tenants, true, now),
        }
    }
}

/// The identifier of the request that starts next, if one may.
pub open spec fn selection(s: Plan, c: Config, now: u128) -> Option<Seq<char>> {
    match selected_position(s, c, now) {
        Some(i) => Some(s.pending[i].id),
        None => None,
    }
}

pub open spec fn has_tenant(list: Seq<Waiting>, tenant: Seq<char>) -> bool {
    exists|i: int| 0 <= i < list.len() && (#[trigger] list[i]).key.0 == tenant
}

pub open spec fn has_key(list: Seq<Waiting>, key: (Seq<char>, Seq<char>)) -> bool {
    exists|i: int| 0 <= i < list.len() && (#[trigger] list[i]).key == key
}

/// A queue in which an element goes to the end, or leaves.
pub open spec fn requeued<A>(queue: Seq<A>, a: A, stays: bool) -> Seq<A> {
    let rest = queue.filter(|b: A| b != a);
    if stays {
        rest.push(a)
    } else {
        rest
    }
}

/// The state without the request at a position; its tenant and its conversation go to the end
/// of their queues, or leave them where nothing of theirs waits any more.
pub open spec fn without(s: Plan, i: int) -> Plan {
    let p = s.pending[i];
    let pending = s.pending.remove(i);
    Plan {
        pending,
        tenants: requeued(s.tenants, p.key.0, has_tenant(pending, p.key.0)),
        conversations: requeued(s.conversations, p.key, has_key(pending, p.key)),
        ..s
    }
}

/// The state without the request with an identifier.
pub open spec fn removed(s: Plan, id: Seq<char>) -> Plan {
    match position_of_id(s.pending, id) {
        Some(i) => without(s, i),
        None => s,
    }
}

pub proof fn lemma_position_of_id(list: Seq<Waiting>, id: Seq<char>)
    ensures
        position_of_id(list, id) is None <==> forall|i: int|
            0 <= i < list.len() ==> (#[trigger] list[i]).id != id,
        position_of_id(list, id) matches Some(i) ==> 0 <= i < list.len() && list[i].id == id
            && forall|j: int| 0 <= j < i ==> (#[trigger] list[j]).id != id,
    decreases list.len(),
{
    if list.len() > 0 {
        let front = list.drop_last();
        lemma_position_of_id(front, id);
        match position_of_id(front, id) {
            Some(i) => {
                assert(front[i] == list[i]);
                assert forall|j: int| 0 <= j < i implies (#[trigger] list[j]).id != id by {
                    assert(front[j] == list[j]);
                }
            },
            None => {
                assert forall|j: int| 0 <= j < front.len() implies (#[trigger] list[j]).id
                    != id by {
                    assert(front[j] == list[j]);
                }
            },
        }
    }
}

pub proof fn lemma_position_of_key(list: Seq<Waiting>, key: (Seq<char>, Seq<char>))
    ensures
        position_of_key(list, key) is None <==> forall|i: int|
            0 <= i < list.len() ==> (#[trigger] list[i]).key != key,
        position_of_key(list, key) matches Some(i) ==> 0 <= i < list.len() && list[i].key == key
            && forall|j: int| 0 <= j < i ==> (#[trigger] list[j]).key != key,
    decreases list.len(),
{
    if list.len() > 0 {
        let front = list.drop_last();
        lemma_position_of_key(front, key);
        match position_of_key(front, key) {
            Some(i) => {
                assert(front[i] == list[i]);
                assert forall|j: int| 0 <= j < i implies (#[trigger] list[j]).key != key by {
                    assert(front[j] == list[j]);
                }
            },
            None => {
                assert forall|j: int| 0 <= j < front.len() implies (#[trigger] list[j]).key
                    != key by {
                    assert(front[j] == list[j]);
                }
            },
        }
    }
}

/// The position of the first waiting request with an identifier.
pub fn find_id(list: &Vec<Pending>, id: &str) -> (r: Option<usize>)
    ensures
        r is Some <==> position_of_id(pending_views(list@), id@) is Some,
        r matches Some(i) ==> i < list@.len() && position_of_id(pending_views(list@), id@) == Some(
            i as int,
        ),
{
    let ghost views = pending_views(list@);
    let mut i: usize = 0;
    proof {
        lemma_position_of_id(views, id@);
    }
    while i < list.len()
        invariant
            i <= list.len(),
            views == pending_views(list@),
            forall|j: int| 0 <= j < i ==> (#[trigger] views[j]).id != id@,
        decreases list.len() - i,
    {
        assert(views[i as int] == list@[i as int]@);
        if same(&list[i].id, id) {
            proof {
                lemma_position_of_id(views, id@);
            }
            return Some(i);
        }
        i += 1;
    }
    None
}

/// The position of the first waiting request of a conversation.
pub fn find_key(list: &Vec<Pending>, key: &Key) -> (r: Option<usize>)
    ensures
        r is Some <==> position_of_key(pending_views(list@), key@) is Some,
        r is Some <==> has_key(pending_views(list@), key@),
        r matches Some(i) ==> i < list@.len() && position_of_key(pending_views(list@), key@)
            == Some(i as int),
{
    let ghost views = pending_views(list@);
    let mut i: usize = 0;
    proof {
        lemma_position_of_key(views, key@);
    }
    while i < list.len()
        invariant
            i <= list.len(),
            views == pending_views(list@),
            forall|j: int| 0 <= j < i ==> (#[trigger] views[j]).key != key@,
        decreases list.len() - i,
    {
        assert(views[i as int] == list@[i as int]@);
        if list[i].key.equals(key) {
            proof {
                lemma_position_of_key(views, key@);
            }
            return Some(i);
        }
        i += 1;
    }
    None
}

fn find_tenant(list: &Vec<Pending>, tenant: &str) -> (r: bool)
    ensures
        r == has_tenant(pending_views(list@), tenant@),
{
    let ghost views = pending_views(list@);
    let mut i: usize = 0;
    while i < list.len()
        invariant
            i <= list.len(),
            views == pending_views(list@),
            forall|j: int| 0 <= j < i ==> (#[trigger] views[j]).key.0 != tenant@,
        decreases list.len() - i,
    {
        assert(views[i as int] == list@[i as int]@);
        if same(&list[i].key.0, tenant) {
            assert(views[i as int].key.0 == tenant@);
            return true;
        }
        i += 1;
    }
    false
}

/// Takes every occurrence of a label out of a queue.
fn drop_label<K: Label>(queue: &mut Vec<K>, label: &K)
    ensures
        final(queue)@.map_values(|k: K| k@) == old(queue)@.map_values(|k: K| k@).filter(
            |v: K::V| v != label@,
        ),
{
    let ghost all = queue@;
    let ghost f = |k: K| k@;
    let ghost p = |v: K::V| v != label@;
    let mut out: Vec<K> = Vec::new();
    let mut i: usize = 0;
    proof {
        reveal(Seq::filter);
        assert(all.map_values(f).take(0) =~= Seq::empty());
        assert(out@.map_values(f) =~= Seq::empty());
    }
    while i < queue.len()
        invariant
            i <= queue@.len(),
            queue@ == all,
            f == (|k: K| k@),
            p == (|v: K::V| v != label@),
            out@.map_values(f) == all.map_values(f).take(i as int).filter(p),
        decreases queue@.len() - i,
    {
        proof {
            reveal(Seq::filter);
            assert(all.map_values(f).take(i + 1).drop_last() == all.map_values(f).take(i as int));
            assert(all.map_values(f).take(i + 1).last() == all[i as int]@);
        }
        if !queue[i].equals(label) {
            let ghost before = out@.map_values(f);
            out.push(queue[i].duplicate());
            assert(out@.map_values(f) =~= before.push(all[i as int]@));
        }
        i += 1;
    }
    assert(all.map_values(f).take(all.len() as int) == all.map_values(f));
    *queue = out;
}

impl State {
    pub open spec fn wf(&self) -> bool {
        &&& self.running.wf()
        &&& self.bindings.wf()
        &&& self.cancelled.wf()
        &&& self.quarantined.wf()
        &&& self.attempts.wf()
        &&& self.journal.wf()
    }

    pub fn configured_max(&self, config: &Config) -> (r: usize)
        ensures
            r == configured_max(self@, *config),
    {
        if self.max_running == 0 {
            config.max_running
        } else {
            self.max_running
        }
    }

    pub fn running_cap(&self, config: &Config) -> (r: usize)
        ensures
            r == running_cap(self@, *config),
    {
        let configured = self.configured_max(config);
        if self.throttle.limit == 0 || self.throttle.limit > configured {
            configured
        } else {
            self.throttle.limit
        }
    }

    /// Takes a waiting request out.
    pub fn remove(&mut self, id: &str) -> (r: Option<Pending>)
        requires
            old(self).wf(),
        ensures
            final(self).wf(),
            final(self)@ == removed(old(self)@, id@),
            r is Some <==> position_of_id(old(self)@.pending, id@) is Some,
            r matches Some(p) ==> p@ == old(self)@.pending[position_of_id(
                old(self)@.pending,
                id@,
            )->0],
    {
        let index: usize = match find_id(&self.pending, id) {
            Some(i) => i,
            None => return None,
        };
        let ghost before = self@;
        let pending = self.pending.remove(index);
        assert(pending_views(self.pending@) =~= before.pending.remove(index as int));
        assert(before.pending[index as int] == pending@);
        drop_label(&mut self.tenants, &pending.key.0);
        drop_label(&mut self.conversations, &pending.key);
        if find_tenant(&self.pending, &pending.key.0) {
            let ghost rest = text::texts(self.tenants@);
            self.tenants.push(pending.key.0.clone());
            assert(text::texts(self.tenants@) =~= rest.push(pending.key.0@));
        }
        if find_key(&self.pending, &pending.key).is_some() {
            let ghost rest = key_views(self.conversations@);
            self.conversations.push(pending.key.duplicate());
            assert(key_views(self.conversations@) =~= rest.push(pending.key@));
        }
        Some(pending)
    }

    /// Whether a tenant has a request running.
    fn is_busy(&self, tenant: &str) -> (r: bool)
        requires
            self.wf(),
        ensures
            r == busy(self@, tenant@),
    {
        let ghost all = self.running.entries@;
        let mut i: usize = 0;
        while i < self.running.entries.len()
            invariant
                i <= self.running.entries@.len(),
                self.wf(),
                all == self.running.entries@,
                forall|j: int| 0 <= j < i ==> (#[trigger] all[j]).0.0@ != tenant@,
            decreases self.running.entries@.len() - i,
        {
            if same(&self.running.entries[i].0.0, tenant) {
                proof {
                    table::lemma_map_of(all);
                    assert(self.running@.contains_key(all[i as int].0@));
                    assert(self@.running.contains_key(all[i as int].0@));
                }
                return true;
            }
            i += 1;
        }
        proof {
            table::lemma_map_of(all);
            assert forall|key: (Seq<char>, Seq<char>)| #[trigger]
                self@.running.contains_key(key) implies key.0 != tenant@ by {
                assert(self.running@.contains_key(key));
                let j = choose|j: int| 0 <= j < all.len() && (#[trigger] all[j]).0@ == key;
            }
        }
        false
    }

    /// Whether a conversation, given by its digest, may still be running upstream.
    pub fn is_isolated(&self, conversation: &str) -> (r: bool)
        requires
            self.wf(),
        ensures
            r == exists|id: Seq<char>| #[trigger]
                self@.quarantined.contains_key(id) && self@.quarantined[id] == Some(conversation@),
    {
        let ghost all = self.quarantined.entries@;
        let mut i: usize = 0;
        while i < self.quarantined.entries.len()
            invariant
                i <= self.quarantined.entries@.len(),
                self.wf(),
                all == self.quarantined.entries@,
                forall|j: int|
                    0 <= j < i ==> text::text_option((#[trigger] all[j]).1) != Some(conversation@),
            decreases self.quarantined.entries@.len() - i,
        {
            let found = match &self.quarantined.entries[i].1 {
                Some(other) => same(other, conversation),
                None => false,
            };
            if found {
                proof {
                    table::lemma_map_of(all);
                    assert(self.quarantined@.contains_key(all[i as int].0@));
                    assert(self@.quarantined.contains_key(all[i as int].0@));
                }
                return true;
            }
            i += 1;
        }
        proof {
            table::lemma_map_of(all);
            assert forall|id: Seq<char>| #[trigger]
                self@.quarantined.contains_key(id) implies self@.quarantined[id] != Some(
                conversation@,
            ) by {
                assert(self.quarantined@.contains_key(id));
                let j = choose|j: int| 0 <= j < all.len() && (#[trigger] all[j]).0@ == id;
                assert(self.quarantined@[all[j].0@] == all[j].1);
            }
        }
        false
    }

    /// How a request continues what is known of its conversation.
    pub fn kind_of(&self, pending: &Pending, now: u128) -> (r: Kind)
        requires
            self.wf(),
        ensures
            r == kind_in(self@, pending@, now),
    {
        match self.bindings.get(&pending.key) {
            Some(binding) => pending.evidence.kind(&binding.signals, now),
            None => Kind::Unknown,
        }
    }

    /// Whether a request could start now.
    fn is_startable(&self, pending: &Pending, now: u128, config: &Config) -> (r: bool)
        requires
            self.wf(),
        ensures
            r == startable(self@, *config, pending@, now),
    {
        if self.is_isolated(&pending.key.digest()) || pending.deadline <= now {
            return false;
        }
        if self.running.has(&pending.key) {
            assert(self@.running.contains_key(pending.key@));
            return false;
        }
        let kind = self.kind_of(pending, now);
        match self.bindings.get(&pending.key) {
            Some(binding) => match binding.finished {
                Some(finished) => now >= finished && now - finished >= gap(kind, config),
                None => true,
            },
            None => true,
        }
    }

    /// The positions of a tenant's requests that could start now.
    fn eligible(&self, tenant: &str, now: u128, config: &Config) -> (r: Vec<usize>)
        requires
            self.wf(),
        ensures
            positions(r@) == eligible(self@, *config, self@.conversations, tenant@, now),
            forall|k: int| 0 <= k < r@.len() ==> (#[trigger] r@[k]) < self.pending@.len(),
    {
        let ghost all = self@.conversations;
        let mut out: Vec<usize> = Vec::new();
        let mut i: usize = 0;
        assert(all.take(0) =~= Seq::empty());
        assert(positions(out@) =~= Seq::empty());
        while i < self.conversations.len()
            invariant
                i <= self.conversations@.len(),
                self.wf(),
                all == self@.conversations,
                positions(out@) == eligible(self@, *config, all.take(i as int), tenant@, now),
                forall|k: int| 0 <= k < out@.len() ==> (#[trigger] out@[k]) < self.pending@.len(),
            decreases self.conversations@.len() - i,
        {
            assert(all.take(i + 1).drop_last() == all.take(i as int));
            let key = &self.conversations[i];
            assert(all.take(i + 1).last() == key@);
            if let Some(at) = find_key(&self.pending, key) {
                let pending = &self.pending[at];
                assert(self@.pending[at as int] == pending@);
                if same(&key.0, tenant) && self.is_startable(pending, now, config) {
                    let ghost before = positions(out@);
                    out.push(at);
                    assert(positions(out@) =~= before.push(at as int));
                }
            }
            i += 1;
        }
        assert(all.take(all.len() as int) == all);
        out
    }

    /// The choice among one tenant's requests.
    fn choose_from(&self, list: &Vec<usize>, now: u128) -> (r: Option<usize>)
        requires
            self.wf(),
            forall|k: int| 0 <= k < list@.len() ==> (#[trigger] list@[k]) < self.pending@.len(),
        ensures
            position(r) == choice(self@, positions(list@), now),
            r matches Some(i) ==> i < self.pending@.len(),
    {
        let ghost all = positions(list@);
        let mut hurried: Option<usize> = None;
        let mut tool: Option<usize> = None;
        let mut i: usize = 0;
        assert(all.take(0) =~= Seq::empty());
        while i < list.len()
            invariant
                i <= list@.len(),
                self.wf(),
                all == positions(list@),
                forall|k: int| 0 <= k < list@.len() ==> (#[trigger] list@[k]) < self.pending@.len(),
                position(hurried) == most_urgent(self@, all.take(i as int), now),
                position(tool) == first_preferred(self@, all.take(i as int), now),
                hurried matches Some(k) ==> k < self.pending@.len(),
                tool matches Some(k) ==> k < self.pending@.len(),
            decreases list@.len() - i,
        {
            assert(all.take(i + 1).drop_last() == all.take(i as int));
            let at: usize = list[i];
            assert(all.take(i + 1).last() == at as int);
            let pending = &self.pending[at];
            assert(self@.pending[at as int] == pending@);
            if since(pending.deadline, now) <= SECOND {
                let sooner = match hurried {
                    Some(k) => {
                        assert(self@.pending[k as int] == self.pending@[k as int]@);
                        pending.deadline < self.pending[k].deadline
                    },
                    None => true,
                };
                if sooner {
                    hurried = Some(at);
                }
            }
            if tool.is_none() && self.is_preferred(pending, now) {
                tool = Some(at);
            }
            i += 1;
        }
        assert(all.take(all.len() as int) == all);
        if hurried.is_some() {
            hurried
        } else if tool.is_some() {
            tool
        } else if list.len() > 0 {
            assert(all[0] == list@[0] as int);
            Some(list[0])
        } else {
            None
        }
    }

    fn is_preferred(&self, pending: &Pending, now: u128) -> (r: bool)
        requires
            self.wf(),
        ensures
            r == preferred(self@, pending@, now),
    {
        if self.kind_of(pending, now) != Kind::Tool {
            return false;
        }
        match &self.tool_streak {
            Some((key, count)) => !(key.equals(&pending.key) && *count >= MAX_TOOL_STREAK),
            None => true,
        }
    }

    /// The choice for the first tenant that is as busy as asked for and has one.
    fn choose_among(&self, busy: bool, now: u128, config: &Config) -> (r: Option<usize>)
        requires
            self.wf(),
        ensures
            position(r) == choice_among(self@, *config, self@.tenants, busy, now),
            r matches Some(i) ==> i < self.pending@.len(),
    {
        let ghost all = self@.tenants;
        let mut i: usize = 0;
        let mut found: Option<usize> = None;
        assert(all.take(0) =~= Seq::empty());
        while i < self.tenants.len()
            invariant
                i <= self.tenants@.len(),
                self.wf(),
                all == self@.tenants,
                position(found) == choice_among(self@, *config, all.take(i as int), busy, now),
                found matches Some(k) ==> k < self.pending@.len(),
            decreases self.tenants@.len() - i,
        {
            assert(all.take(i + 1).drop_last() == all.take(i as int));
            let tenant = &self.tenants[i];
            assert(all.take(i + 1).last() == tenant@);
            if found.is_none() && self.is_busy(tenant) == busy {
                let list = self.eligible(tenant, now, config);
                found = self.choose_from(&list, now);
            }
            i += 1;
        }
        assert(all.take(all.len() as int) == all);
        found
    }

    /// The position of the request that starts next, if one may.
    pub fn selected(&self, now: u128, config: &Config) -> (r: Option<usize>)
        requires
            self.wf(),
        ensures
            position(r) == selected_position(self@, *config, now),
            r matches Some(i) ==> i < self.pending@.len(),
    {
        proof {
            assert(self@.running.dom() =~= self.running@.dom());
            assert(self@.quarantined.dom() =~= self.quarantined@.dom());
        }
        let cooling = match self.throttle.until {
            Some(until) => now < until,
            None => false,
        };
        let early = match self.next_start {
            Some(next) => now < next,
            None => false,
        };
        let load: u128 = self.running.len() as u128 + self.quarantined.len() as u128;
        if self.uncertain || self.paused || self.throttle.blocked || cooling
            || self.dispatching.is_some() || load >= self.running_cap(config) as u128 || early {
            return None;
        }
        match self.choose_among(false, now, config) {
            Some(i) => Some(i),
            None => self.choose_among(true, now, config),
        }
    }
}

pub open spec fn positions(list: Seq<usize>) -> Seq<int> {
    list.map_values(|i: usize| i as int)
}

pub open spec fn position(i: Option<usize>) -> Option<int> {
    match i {
        Some(i) => Some(i as int),
        None => None,
    }
}

/// The time that has to pass after a conversation's last turn.
pub fn gap(kind: Kind, config: &Config) -> (r: u128)
    ensures
        r == gap_for(kind, *config),
{
    match kind {
        Kind::User => config.user_gap,
        Kind::Tool => config.tool_gap,
        Kind::Unknown => config.gap,
    }
}

proof fn lemma_eligible(
    s: Plan,
    c: Config,
    conversations: Seq<(Seq<char>, Seq<char>)>,
    tenant: Seq<char>,
    now: u128,
)
    ensures
        forall|k: int|
            0 <= k < eligible(s, c, conversations, tenant, now).len() ==> {
                let i = #[trigger] eligible(s, c, conversations, tenant, now)[k];
                0 <= i < s.pending.len() && startable(s, c, s.pending[i], now)
                    && s.pending[i].key.0 == tenant && conversations.contains(s.pending[i].key)
            },
    decreases conversations.len(),
{
    if conversations.len() > 0 {
        let front = conversations.drop_last();
        lemma_eligible(s, c, front, tenant, now);
        lemma_position_of_key(s.pending, conversations.last());
        assert forall|k: int|
            0 <= k < eligible(s, c, conversations, tenant, now).len() implies {
            let i = #[trigger] eligible(s, c, conversations, tenant, now)[k];
            0 <= i < s.pending.len() && startable(s, c, s.pending[i], now)
                && s.pending[i].key.0 == tenant && conversations.contains(s.pending[i].key)
        } by {
            let i = eligible(s, c, conversations, tenant, now)[k];
            if k < eligible(s, c, front, tenant, now).len() {
                assert(i == eligible(s, c, front, tenant, now)[k]);
                let j = choose|j: int| 0 <= j < front.len() && front[j] == s.pending[i].key;
                assert(conversations[j] == s.pending[i].key);
            } else {
                assert(conversations[conversations.len() - 1] == s.pending[i].key);
            }
        }
    }
}

proof fn lemma_choice(s: Plan, list: Seq<int>, now: u128)
    ensures
        most_urgent(s, list, now) matches Some(i) ==> list.contains(i) && urgent(s.pending[i], now),
        first_preferred(s, list, now) matches Some(i) ==> list.contains(i) && preferred(
            s,
            s.pending[i],
            now,
        ),
        choice(s, list, now) matches Some(i) ==> list.contains(i),
        choice(s, list, now) is None <==> list.len() == 0,
    decreases list.len(),
{
    if list.len() > 0 {
        let front = list.drop_last();
        lemma_choice(s, front, now);
        assert(list[list.len() - 1] == list.last());
        if let Some(i) = most_urgent(s, front, now) {
            let k = choose|k: int| 0 <= k < front.len() && front[k] == i;
            assert(list[k] == i);
        }
        if let Some(i) = first_preferred(s, front, now) {
            let k = choose|k: int| 0 <= k < front.len() && front[k] == i;
            assert(list[k] == i);
        }
        assert(list[0] == list[0]);
    }
}

proof fn lemma_choice_among(s: Plan, c: Config, tenants: Seq<Seq<char>>, is_busy: bool, now: u128)
    ensures
        choice_among(s, c, tenants, is_busy, now) matches Some(i) ==> 0 <= i < s.pending.len()
            && startable(s, c, s.pending[i], now) && busy(s, s.pending[i].key.0) == is_busy
            && tenants.contains(s.pending[i].key.0),
        choice_among(s, c, tenants, is_busy, now) is None ==> forall|k: int|
            0 <= k < tenants.len() && busy(s, #[trigger] tenants[k]) == is_busy ==> eligible(
                s,
                c,
                s.conversations,
                tenants[k],
                now,
            ).len() == 0,
    decreases tenants.len(),
{
    if tenants.len() > 0 {
        let front = tenants.drop_last();
        lemma_choice_among(s, c, front, is_busy, now);
        let list = eligible(s, c, s.conversations, tenants.last(), now);
        lemma_eligible(s, c, s.conversations, tenants.last(), now);
        lemma_choice(s, list, now);
        match choice_among(s, c, front, is_busy, now) {
            Some(i) => {
                let k = choose|k: int| 0 <= k < front.len() && front[k] == s.pending[i].key.0;
                assert(tenants[k] == s.pending[i].key.0);
            },
            None => {
                if busy(s, tenants.last()) == is_busy {
                    if let Some(i) = choice(s, list, now) {
                        let k = choose|k: int| 0 <= k < list.len() && list[k] == i;
                        assert(list[k] == i);
                        assert(tenants[tenants.len() - 1] == s.pending[i].key.0);
                    }
                }
                assert forall|k: int|
                    choice_among(s, c, tenants, is_busy, now) is None && 0 <= k < tenants.len()
                        && busy(s, #[trigger] tenants[k]) == is_busy implies eligible(
                    s,
                    c,
                    s.conversations,
                    tenants[k],
                    now,
                ).len() == 0 by {
                    if k < front.len() {
                        assert(front[k] == tenants[k]);
                    }
                }
            },
        }
    }
}

/// What starts next is a waiting request whose deadline has not passed and whose gap has, of a
/// conversation that neither runs nor may still run upstream; it starts only while fewer
/// requests use capacity than may.
pub proof fn law_selection_is_startable(s: Plan, c: Config, now: u128)
    requires
        selected_position(s, c, now) is Some,
    ensures
        0 <= selected_position(s, c, now)->0 < s.pending.len(),
        startable(s, c, s.pending[selected_position(s, c, now)->0], now),
        load(s) < running_cap(s, c),
        position_of_id(s.pending, selection(s, c, now)->0) is Some,
{
    lemma_choice_among(s, c, s.tenants, false, now);
    lemma_choice_among(s, c, s.tenants, true, now);
    lemma_position_of_id(s.pending, selection(s, c, now)->0);
}

/// A tenant that has a request running gets another one only when no idle tenant in the queue
/// has anything that could start.
pub proof fn law_idle_tenants_first(s: Plan, c: Config, now: u128, tenant: Seq<char>)
    requires
        selected_position(s, c, now) is Some,
        busy(s, s.pending[selected_position(s, c, now)->0].key.0),
        s.tenants.contains(tenant),
        !busy(s, tenant),
    ensures
        eligible(s, c, s.conversations, tenant, now).len() == 0,
{
    lemma_choice_among(s, c, s.tenants, false, now);
    lemma_choice_among(s, c, s.tenants, true, now);
    let k = choose|k: int| 0 <= k < s.tenants.len() && s.tenants[k] == tenant;
    assert(busy(s, s.tenants[k]) == false);
}

/// Among one tenant's requests, one with a second or less left goes first, and none with an
/// earlier deadline is passed over.
pub proof fn law_deadlines_first(s: Plan, list: Seq<int>, now: u128, k: int)
    requires
        0 <= k < list.len(),
        urgent(s.pending[list[k]], now),
    ensures
        choice(s, list, now) is Some,
        urgent(s.pending[choice(s, list, now)->0], now),
        s.pending[choice(s, list, now)->0].deadline <= s.pending[list[k]].deadline,
    decreases list.len(),
{
    lemma_choice(s, list, now);
    lemma_most_urgent(s, list, now, k);
}

proof fn lemma_most_urgent(s: Plan, list: Seq<int>, now: u128, k: int)
    requires
        0 <= k < list.len(),
        urgent(s.pending[list[k]], now),
    ensures
        most_urgent(s, list, now) is Some,
        s.pending[most_urgent(s, list, now)->0].deadline <= s.pending[list[k]].deadline,
    decreases list.len(),
{
    if k < list.len() - 1 {
        lemma_most_urgent(s, list.drop_last(), now, k);
    }
}

/// After its tool work has started twice in a row, a conversation goes before other work of
/// its tenant only by its deadline or its place in the queue.
pub proof fn law_tool_streak_is_bounded(s: Plan, list: Seq<int>, now: u128)
    requires
        choice(s, list, now) is Some,
        streaked(s, s.pending[choice(s, list, now)->0].key),
    ensures
        urgent(s.pending[choice(s, list, now)->0], now) || choice(s, list, now) == Some(list[0]),
{
    lemma_choice(s, list, now);
}

/// One entry of a queue stands before another.
pub open spec fn stands_before<A>(queue: Seq<A>, x: A, y: A) -> bool {
    exists|i: int, j: int|
        0 <= i < j < queue.len() && #[trigger] queue[i] == x && #[trigger] queue[j] == y
}

/// Nothing that concerns all requests keeps one from starting: the queue runs, the service has
/// not asked to wait, the last start is over and long enough ago, and fewer requests run or may
/// still run upstream than the operator and the service allow.
pub open spec fn takes_starts(s: Plan, c: Config, now: u128) -> bool {
    let used = s.running.dom().len() + s.quarantined.dom().len();
    &&& !s.uncertain && !s.paused && !s.throttle.blocked && s.dispatching is None
    &&& (s.throttle.until matches Some(until) ==> until <= now)
    &&& (s.next_start matches Some(next) ==> next <= now)
    &&& (s.max_running > 0 ==> used < s.max_running)
    &&& (s.max_running == 0 ==> used < c.max_running)
    &&& (s.throttle.limit > 0 ==> used < s.throttle.limit)
}

/// The request at a position is the first of its conversation, in time, and its conversation
/// neither runs, nor may still run upstream, nor has to rest: after user input, after tool work
/// and otherwise for the time that is set for each.
pub open spec fn may_start(s: Plan, c: Config, j: int, now: u128) -> bool {
    let p = s.pending[j];
    &&& 0 <= j < s.pending.len()
    &&& forall|e: int| 0 <= e < j ==> (#[trigger] s.pending[e]).key != p.key
    &&& now < p.deadline
    &&& !s.running.contains_key(p.key)
    &&& forall|id: Seq<char>| #[trigger]
        s.quarantined.contains_key(id) ==> s.quarantined[id] != Some(
            digest::pair_digest(p.key.0, p.key.1),
        )
    &&& s.bindings.contains_key(p.key) ==> (s.bindings[p.key].finished matches Some(finished) ==> {
        let kind = signals::kind_of(p.evidence, s.bindings[p.key].signals, now);
        &&& kind == Kind::User ==> finished + c.user_gap <= now
        &&& kind == Kind::Tool ==> finished + c.tool_gap <= now
        &&& kind == Kind::Unknown ==> finished + c.gap <= now
    })
}

/// The request at a position is tool work of a conversation that did not have the last two
/// starts as such.
pub open spec fn has_precedence(s: Plan, j: int, now: u128) -> bool {
    let p = s.pending[j];
    &&& s.bindings.contains_key(p.key)
    &&& signals::kind_of(p.evidence, s.bindings[p.key].signals, now) == Kind::Tool
    &&& !(s.tool_streak matches Some((key, count)) && key == p.key && count >= 2)
}

/// A tenant has a request running.
pub open spec fn runs_something(s: Plan, tenant: Seq<char>) -> bool {
    exists|key: (Seq<char>, Seq<char>)| #[trigger] s.running.contains_key(key) && key.0 == tenant
}

/// The tenant and the conversation of the request at a position are in their queues.
pub open spec fn stands_in_line(s: Plan, j: int) -> bool {
    s.tenants.contains(s.pending[j].key.0) && s.conversations.contains(s.pending[j].key)
}

proof fn lemma_may_start(s: Plan, c: Config, j: int, now: u128)
    requires
        0 <= j < s.pending.len(),
    ensures
        may_start(s, c, j, now) <==> (position_of_key(s.pending, s.pending[j].key) == Some(j)
            && startable(s, c, s.pending[j], now)),
{
    let p = s.pending[j];
    lemma_position_of_key(s.pending, p.key);
    if position_of_key(s.pending, p.key) is Some {
        let first = position_of_key(s.pending, p.key)->0;
        if first < j {
            assert(s.pending[first].key == p.key);
        }
        if j < first {
            assert(s.pending[j].key == p.key);
        }
    } else {
        assert(s.pending[j].key == p.key);
    }
}

proof fn lemma_eligible_order(
    s: Plan,
    c: Config,
    conversations: Seq<(Seq<char>, Seq<char>)>,
    tenant: Seq<char>,
    now: u128,
)
    ensures
        forall|k: int|
            0 <= k < eligible(s, c, conversations, tenant, now).len() ==> {
                let i = #[trigger] eligible(s, c, conversations, tenant, now)[k];
                may_start(s, c, i, now) && s.pending[i].key.0 == tenant && conversations.contains(
                    s.pending[i].key,
                )
            },
        forall|a: int, b: int|
            0 <= a < b < eligible(s, c, conversations, tenant, now).len() ==> stands_before(
                conversations,
                s.pending[#[trigger] eligible(s, c, conversations, tenant, now)[a]].key,
                s.pending[#[trigger] eligible(s, c, conversations, tenant, now)[b]].key,
            ),
        forall|j: int|
            #[trigger] may_start(s, c, j, now) && s.pending[j].key.0 == tenant
                && conversations.contains(s.pending[j].key) ==> eligible(
                s,
                c,
                conversations,
                tenant,
                now,
            ).contains(j),
    decreases conversations.len(),
{
    let list = eligible(s, c, conversations, tenant, now);
    lemma_eligible(s, c, conversations, tenant, now);
    if conversations.len() > 0 {
        let front = conversations.drop_last();
        let rest = eligible(s, c, front, tenant, now);
        let key = conversations.last();
        let end = conversations.len() - 1;
        lemma_eligible_order(s, c, front, tenant, now);
        lemma_position_of_key(s.pending, key);
        if position_of_key(s.pending, key) is Some {
            lemma_may_start(s, c, position_of_key(s.pending, key)->0, now);
        }
        assert forall|k: int| 0 <= k < list.len() implies may_start(
            s,
            c,
            #[trigger] list[k],
            now,
        ) by {
            if k < rest.len() {
                assert(list[k] == rest[k]);
            }
        }
        assert forall|a: int, b: int| 0 <= a < b < list.len() implies stands_before(
            conversations,
            s.pending[#[trigger] list[a]].key,
            s.pending[#[trigger] list[b]].key,
        ) by {
            assert(list[a] == rest[a]);
            if b < rest.len() {
                assert(list[b] == rest[b]);
                let (x, y) = choose|x: int, y: int|
                    0 <= x < y < front.len() && #[trigger] front[x] == s.pending[list[a]].key
                        && #[trigger] front[y] == s.pending[list[b]].key;
                assert(conversations[x] == front[x] && conversations[y] == front[y]);
            } else {
                let x = choose|x: int| 0 <= x < front.len() && front[x] == s.pending[list[a]].key;
                assert(conversations[x] == front[x] && conversations[end] == key);
            }
        }
        assert forall|j: int|
            #[trigger] may_start(s, c, j, now) && s.pending[j].key.0 == tenant
                && conversations.contains(s.pending[j].key) implies list.contains(j) by {
            lemma_may_start(s, c, j, now);
            if s.pending[j].key == key {
                assert(list[list.len() - 1] == j);
            } else {
                let x = choose|x: int|
                    0 <= x < conversations.len() && conversations[x] == s.pending[j].key;
                assert(front[x] == s.pending[j].key);
                let k = choose|k: int| 0 <= k < rest.len() && rest[k] == j;
                assert(list[k] == j);
            }
        }
    }
}

proof fn lemma_choice_among_place(
    s: Plan,
    c: Config,
    tenants: Seq<Seq<char>>,
    is_busy: bool,
    now: u128,
) -> (at: int)
    requires
        choice_among(s, c, tenants, is_busy, now) is Some,
    ensures
        0 <= at < tenants.len(),
        busy(s, tenants[at]) == is_busy,
        choice_among(s, c, tenants, is_busy, now) == choice(
            s,
            eligible(s, c, s.conversations, tenants[at], now),
            now,
        ),
        forall|k: int|
            0 <= k < at && busy(s, #[trigger] tenants[k]) == is_busy ==> eligible(
                s,
                c,
                s.conversations,
                tenants[k],
                now,
            ).len() == 0,
    decreases tenants.len(),
{
    let front = tenants.drop_last();
    if choice_among(s, c, front, is_busy, now) is Some {
        let at = lemma_choice_among_place(s, c, front, is_busy, now);
        assert(tenants[at] == front[at]);
        assert forall|k: int|
            0 <= k < at && busy(s, #[trigger] tenants[k]) == is_busy implies eligible(
            s,
            c,
            s.conversations,
            tenants[k],
            now,
        ).len() == 0 by {
            assert(front[k] == tenants[k]);
        }
        at
    } else {
        lemma_choice_among(s, c, front, is_busy, now);
        assert forall|k: int|
            0 <= k < tenants.len() - 1 && busy(s, #[trigger] tenants[k]) == is_busy implies eligible(
            s,
            c,
            s.conversations,
            tenants[k],
            now,
        ).len() == 0 by {
            assert(front[k] == tenants[k]);
        }
        tenants.len() - 1
    }
}

/// Where in the list the choice stands, and what stands before it.
proof fn lemma_choice_place(s: Plan, list: Seq<int>, now: u128) -> (at: int)
    requires
        list.len() > 0,
    ensures
        0 <= at < list.len(),
        choice(s, list, now) == Some(list[at]),
        urgent(s.pending[list[at]], now) ==> forall|k: int|
            0 <= k < list.len() && urgent(s.pending[#[trigger] list[k]], now) ==> {
                &&& s.pending[list[at]].deadline <= s.pending[list[k]].deadline
                &&& k < at ==> s.pending[list[at]].deadline < s.pending[list[k]].deadline
            },
        !urgent(s.pending[list[at]], now) ==> {
            &&& forall|k: int| 0 <= k < list.len() ==> !urgent(s.pending[#[trigger] list[k]], now)
            &&& preferred(s, s.pending[list[at]], now) ==> forall|k: int|
                0 <= k < at ==> !preferred(s, s.pending[#[trigger] list[k]], now)
            &&& !preferred(s, s.pending[list[at]], now) ==> at == 0 && forall|k: int|
                0 <= k < list.len() ==> !preferred(s, s.pending[#[trigger] list[k]], now)
        },
{
    let u = lemma_most_urgent_place(s, list, now);
    let f = lemma_first_preferred_place(s, list, now);
    if most_urgent(s, list, now) is Some {
        u
    } else if first_preferred(s, list, now) is Some {
        f
    } else {
        0
    }
}

proof fn lemma_most_urgent_place(s: Plan, list: Seq<int>, now: u128) -> (at: int)
    ensures
        most_urgent(s, list, now) matches Some(i) ==> {
            &&& 0 <= at < list.len() && list[at] == i && urgent(s.pending[i], now)
            &&& forall|k: int|
                0 <= k < list.len() && urgent(s.pending[#[trigger] list[k]], now) ==> {
                    &&& s.pending[i].deadline <= s.pending[list[k]].deadline
                    &&& k < at ==> s.pending[i].deadline < s.pending[list[k]].deadline
                }
        },
        most_urgent(s, list, now) is None ==> forall|k: int|
            0 <= k < list.len() ==> !urgent(s.pending[#[trigger] list[k]], now),
    decreases list.len(),
{
    if list.len() == 0 {
        0
    } else {
        let front = list.drop_last();
        let before = lemma_most_urgent_place(s, front, now);
        let end = list.len() - 1;
        let rest = most_urgent(s, front, now);
        let at = if most_urgent(s, list, now) == rest {
            before
        } else {
            end
        };
        assert(forall|k: int| 0 <= k < end ==> #[trigger] list[k] == front[k]);
        assert(list.last() == list[end]);
        at
    }
}

proof fn lemma_first_preferred_place(s: Plan, list: Seq<int>, now: u128) -> (at: int)
    ensures
        first_preferred(s, list, now) matches Some(i) ==> {
            &&& 0 <= at < list.len() && list[at] == i && preferred(s, s.pending[i], now)
            &&& forall|k: int| 0 <= k < at ==> !preferred(s, s.pending[#[trigger] list[k]], now)
        },
        first_preferred(s, list, now) is None ==> forall|k: int|
            0 <= k < list.len() ==> !preferred(s, s.pending[#[trigger] list[k]], now),
    decreases list.len(),
{
    if list.len() == 0 {
        0
    } else {
        let front = list.drop_last();
        let before = lemma_first_preferred_place(s, front, now);
        let end = list.len() - 1;
        assert(forall|k: int| 0 <= k < end ==> #[trigger] list[k] == front[k]);
        assert(list.last() == list[end]);
        if first_preferred(s, front, now) is Some {
            before
        } else {
            end
        }
    }
}

/// Where the tenant that is selected stands, and where in its list the request does.
proof fn lemma_selected_place(s: Plan, c: Config, now: u128) -> (at: (int, int))
    requires
        selected_position(s, c, now) is Some,
    ensures
        ({
            let i = selected_position(s, c, now)->0;
            let tenant = s.pending[i].key.0;
            let list = eligible(s, c, s.conversations, tenant, now);
            &&& 0 <= at.0 < s.tenants.len()
            &&& s.tenants[at.0] == tenant
            &&& 0 <= at.1 < list.len() && list[at.1] == i
            &&& choice(s, list, now) == Some(i)
            &&& may_start(s, c, i, now)
            &&& s.conversations.contains(s.pending[i].key)
            &&& forall|k: int|
                0 <= k < s.tenants.len() && (k < at.0 || (busy(s, tenant) && !busy(
                    s,
                    s.tenants[k],
                ))) && (busy(s, tenant) || !busy(s, s.tenants[k])) ==> eligible(
                    s,
                    c,
                    s.conversations,
                    #[trigger] s.tenants[k],
                    now,
                ).len() == 0
        }),
{
    let idle = choice_among(s, c, s.tenants, false, now);
    let is_busy = idle is None;
    lemma_choice_among(s, c, s.tenants, false, now);
    let t = lemma_choice_among_place(s, c, s.tenants, is_busy, now);
    let list = eligible(s, c, s.conversations, s.tenants[t], now);
    lemma_choice(s, list, now);
    lemma_eligible_order(s, c, s.conversations, s.tenants[t], now);
    let k = lemma_choice_place(s, list, now);
    assert(may_start(s, c, list[k], now));
    (t, k)
}

/// What starts is a request that may, at a time at which one may, and one that stands in line.
pub proof fn law_what_starts_may_start(s: Plan, c: Config, now: u128)
    ensures
        selected_position(s, c, now) matches Some(i) ==> takes_starts(s, c, now) && may_start(
            s,
            c,
            i,
            now,
        ) && stands_in_line(s, i),
{
    if selected_position(s, c, now) is Some {
        let at = lemma_selected_place(s, c, now);
    }
}

/// While starts are taken, no request that may start waits for nothing: some request starts.
pub proof fn law_no_start_is_missed(s: Plan, c: Config, now: u128, j: int)
    requires
        takes_starts(s, c, now),
        may_start(s, c, j, now),
        stands_in_line(s, j),
    ensures
        selected_position(s, c, now) is Some,
{
    let tenant = s.pending[j].key.0;
    lemma_eligible_order(s, c, s.conversations, tenant, now);
    lemma_choice_among(s, c, s.tenants, false, now);
    lemma_choice_among(s, c, s.tenants, true, now);
    let k = choose|k: int| 0 <= k < s.tenants.len() && s.tenants[k] == tenant;
    assert(busy(s, s.tenants[k]) || !busy(s, s.tenants[k]));
    assert(eligible(s, c, s.conversations, tenant, now).contains(j));
}

/// Tenants take turns: one that runs something is not served while one that runs nothing has a
/// request that may start, and of two that are alike in this the one that stands first is.
pub proof fn law_tenants_take_turns(s: Plan, c: Config, now: u128, j: int)
    requires
        selected_position(s, c, now) is Some,
        may_start(s, c, j, now),
        stands_in_line(s, j),
        s.pending[j].key.0 != s.pending[selected_position(s, c, now)->0].key.0,
    ensures
        ({
            let served = s.pending[selected_position(s, c, now)->0].key.0;
            let other = s.pending[j].key.0;
            &&& runs_something(s, served) ==> runs_something(s, other)
            &&& runs_something(s, served) == runs_something(s, other) ==> stands_before(
                s.tenants,
                served,
                other,
            )
        }),
{
    let served = s.pending[selected_position(s, c, now)->0].key.0;
    let other = s.pending[j].key.0;
    let at = lemma_selected_place(s, c, now);
    lemma_eligible_order(s, c, s.conversations, other, now);
    assert(eligible(s, c, s.conversations, other, now).contains(j));
    let k = choose|k: int| 0 <= k < s.tenants.len() && s.tenants[k] == other;
    assert(busy(s, served) == runs_something(s, served));
    assert(busy(s, other) == runs_something(s, other));
    assert(s.tenants[k] == other && s.tenants[at.0] == served);
}

/// Among one tenant's requests that may start, one with a second or less left goes first, the
/// earliest deadline before the others; then tool work that has precedence; and what is alike in
/// this goes in the order of the conversations.
pub proof fn law_order_within_a_tenant(s: Plan, c: Config, now: u128, j: int)
    requires
        selected_position(s, c, now) is Some,
        may_start(s, c, j, now),
        stands_in_line(s, j),
        j != selected_position(s, c, now)->0,
        s.pending[j].key.0 == s.pending[selected_position(s, c, now)->0].key.0,
    ensures
        ({
            let i = selected_position(s, c, now)->0;
            let (p, q) = (s.pending[i], s.pending[j]);
            &&& q.deadline <= now + 1_000_000_000 ==> p.deadline <= q.deadline
            &&& p.deadline <= now + 1_000_000_000 && p.deadline == q.deadline ==> stands_before(
                s.conversations,
                p.key,
                q.key,
            )
            &&& p.deadline > now + 1_000_000_000 ==> {
                &&& has_precedence(s, j, now) ==> has_precedence(s, i, now)
                &&& has_precedence(s, j, now) == has_precedence(s, i, now) ==> stands_before(
                    s.conversations,
                    p.key,
                    q.key,
                )
            }
        }),
{
    let i = selected_position(s, c, now)->0;
    let tenant = s.pending[j].key.0;
    let at = lemma_selected_place(s, c, now);
    let list = eligible(s, c, s.conversations, tenant, now);
    lemma_eligible_order(s, c, s.conversations, tenant, now);
    let first = lemma_choice_place(s, list, now);
    let k = choose|k: int| 0 <= k < list.len() && list[k] == j;
    assert(list[k] == j && list[first] == i);
    assert(urgent(s.pending[i], now) == (s.pending[i].deadline <= now + 1_000_000_000));
    assert(urgent(s.pending[j], now) == (s.pending[j].deadline <= now + 1_000_000_000));
    assert(preferred(s, s.pending[i], now) == has_precedence(s, i, now));
    assert(preferred(s, s.pending[j], now) == has_precedence(s, j, now));
}

proof fn lemma_requeued_order<A>(queue: Seq<A>, a: A, stays: bool, x: A, y: A)
    requires
        x != a,
        y != a,
    ensures
        requeued(queue, a, stays).contains(a) <==> stays,
        requeued(queue, a, stays).contains(x) <==> queue.contains(x),
        stands_before(queue, x, y) <==> stands_before(requeued(queue, a, stays), x, y),
        !stands_before(requeued(queue, a, stays), a, x),
        stays && queue.contains(x) ==> stands_before(requeued(queue, a, stays), x, a),
{
    let rest = queue.filter(|b: A| b != a);
    lemma_filter_order(queue, a, x, y);
    let after = requeued(queue, a, stays);
    if stays {
        let end = rest.len() as int;
        assert(after[end] == a);
        assert(forall|k: int| 0 <= k < end ==> #[trigger] after[k] == rest[k]);
        if queue.contains(x) {
            let k = choose|k: int| 0 <= k < rest.len() && rest[k] == x;
            assert(after[k] == x);
        }
        if after.contains(x) {
            let k = choose|k: int| 0 <= k < after.len() && after[k] == x;
            assert(rest[k] == x);
        }
        if stands_before(rest, x, y) {
            let (i, j) = choose|i: int, j: int|
                0 <= i < j < rest.len() && #[trigger] rest[i] == x && #[trigger] rest[j] == y;
            assert(after[i] == x && after[j] == y);
        }
        if stands_before(after, x, y) {
            let (i, j) = choose|i: int, j: int|
                0 <= i < j < after.len() && #[trigger] after[i] == x && #[trigger] after[j] == y;
            assert(rest[i] == x && rest[j] == y);
        }
        if stands_before(after, a, x) {
            let (i, j) = choose|i: int, j: int|
                0 <= i < j < after.len() && #[trigger] after[i] == a && #[trigger] after[j] == x;
            assert(rest[i] == a);
            assert(rest.contains(a));
        }
    } else if stands_before(after, a, x) {
        let (i, j) = choose|i: int, j: int|
            0 <= i < j < after.len() && #[trigger] after[i] == a && #[trigger] after[j] == x;
        assert(rest[i] == a);
        assert(rest.contains(a));
    }
}

proof fn lemma_filter_order<A>(queue: Seq<A>, a: A, x: A, y: A)
    requires
        x != a,
        y != a,
    ensures
        !queue.filter(|b: A| b != a).contains(a),
        queue.filter(|b: A| b != a).contains(x) <==> queue.contains(x),
        queue.filter(|b: A| b != a).contains(y) <==> queue.contains(y),
        stands_before(queue, x, y) <==> stands_before(queue.filter(|b: A| b != a), x, y),
    decreases queue.len(),
{
    reveal(Seq::filter);
    let p = |b: A| b != a;
    let rest = queue.filter(p);
    if queue.len() > 0 {
        let front = queue.drop_last();
        let kept = front.filter(p);
        let end = queue.len() - 1;
        lemma_filter_order(front, a, x, y);
        assert(queue[end] == queue.last());
        assert(forall|k: int| 0 <= k < end ==> #[trigger] queue[k] == front[k]);
        assert(forall|k: int| 0 <= k < kept.len() ==> #[trigger] rest[k] == kept[k]);
        lemma_last_place(queue, x);
        lemma_last_place(queue, y);
        lemma_before_last(queue, x, y);
        if queue.last() != a {
            assert(rest == kept.push(queue.last()));
            assert(rest.drop_last() =~= kept);
            lemma_last_place(rest, x);
            lemma_last_place(rest, y);
            lemma_last_place(rest, a);
            lemma_before_last(rest, x, y);
        }
    }
}

proof fn lemma_last_place<A>(queue: Seq<A>, x: A)
    requires
        queue.len() > 0,
    ensures
        queue.contains(x) <==> queue.last() == x || queue.drop_last().contains(x),
{
    let front = queue.drop_last();
    assert(queue[queue.len() - 1] == queue.last());
    if queue.contains(x) && queue.last() != x {
        let k = choose|k: int| 0 <= k < queue.len() && queue[k] == x;
        assert(front[k] == x);
    }
    if front.contains(x) {
        let k = choose|k: int| 0 <= k < front.len() && front[k] == x;
        assert(queue[k] == x);
    }
}

proof fn lemma_before_last<A>(queue: Seq<A>, x: A, y: A)
    requires
        queue.len() > 0,
    ensures
        stands_before(queue, x, y) <==> stands_before(queue.drop_last(), x, y) || (queue.last()
            == y && queue.drop_last().contains(x)),
{
    let front = queue.drop_last();
    let end = queue.len() - 1;
    assert(queue[end] == queue.last());
    if stands_before(queue, x, y) {
        let (i, j) = choose|i: int, j: int|
            0 <= i < j < queue.len() && #[trigger] queue[i] == x && #[trigger] queue[j] == y;
        assert(front[i] == x);
        if j < end {
            assert(front[j] == y);
        }
    }
    if stands_before(front, x, y) {
        let (i, j) = choose|i: int, j: int|
            0 <= i < j < front.len() && #[trigger] front[i] == x && #[trigger] front[j] == y;
        assert(queue[i] == x && queue[j] == y);
    }
    if queue.last() == y && front.contains(x) {
        let i = choose|i: int| 0 <= i < front.len() && front[i] == x;
        assert(queue[i] == x && queue[end] == y);
    }
}

/// Whoever had a turn goes behind everyone else: after a request is taken out, the other tenants
/// in the queue keep their order, and each of them stands before the tenant of that request,
/// which stays only while something of it waits.
pub proof fn law_tenant_goes_to_the_back(s: Plan, i: int, x: Seq<char>, y: Seq<char>)
    requires
        0 <= i < s.pending.len(),
        x != s.pending[i].key.0,
        y != s.pending[i].key.0,
    ensures
        ({
            let after = without(s, i);
            let served = s.pending[i].key.0;
            &&& after.pending == s.pending.remove(i)
            &&& after.tenants.contains(served) <==> exists|k: int|
                0 <= k < s.pending.len() && k != i && (#[trigger] s.pending[k]).key.0 == served
            &&& after.tenants.contains(x) <==> s.tenants.contains(x)
            &&& stands_before(after.tenants, x, y) <==> stands_before(s.tenants, x, y)
            &&& !stands_before(after.tenants, served, x)
            &&& after.tenants.contains(served) && s.tenants.contains(x) ==> stands_before(
                after.tenants,
                x,
                served,
            )
        }),
{
    let rest = s.pending.remove(i);
    let served = s.pending[i].key.0;
    lemma_requeued_order(s.tenants, served, has_tenant(rest, served), x, y);
    if has_tenant(rest, served) {
        let k = choose|k: int| 0 <= k < rest.len() && (#[trigger] rest[k]).key.0 == served;
        let at = if k < i {
            k
        } else {
            k + 1
        };
        assert(s.pending[at] == rest[k]);
    }
    if exists|k: int| 0 <= k < s.pending.len() && k != i && (#[trigger] s.pending[k]).key.0 == served {
        let k = choose|k: int|
            0 <= k < s.pending.len() && k != i && (#[trigger] s.pending[k]).key.0 == served;
        let at = if k < i {
            k
        } else {
            k - 1
        };
        assert(rest[at] == s.pending[k]);
    }
}

/// The same holds of conversations: the one that had a turn goes behind the others, which keep
/// their order, and stays only while something of it waits.
pub proof fn law_conversation_goes_to_the_back(
    s: Plan,
    i: int,
    x: (Seq<char>, Seq<char>),
    y: (Seq<char>, Seq<char>),
)
    requires
        0 <= i < s.pending.len(),
        x != s.pending[i].key,
        y != s.pending[i].key,
    ensures
        ({
            let after = without(s, i);
            let served = s.pending[i].key;
            &&& after.conversations.contains(served) <==> exists|k: int|
                0 <= k < s.pending.len() && k != i && (#[trigger] s.pending[k]).key == served
            &&& after.conversations.contains(x) <==> s.conversations.contains(x)
            &&& stands_before(after.conversations, x, y) <==> stands_before(s.conversations, x, y)
            &&& !stands_before(after.conversations, served, x)
            &&& after.conversations.contains(served) && s.conversations.contains(x)
                ==> stands_before(after.conversations, x, served)
        }),
{
    let rest = s.pending.remove(i);
    let served = s.pending[i].key;
    lemma_requeued_order(s.conversations, served, has_key(rest, served), x, y);
    if has_key(rest, served) {
        let k = choose|k: int| 0 <= k < rest.len() && (#[trigger] rest[k]).key == served;
        let at = if k < i {
            k
        } else {
            k + 1
        };
        assert(s.pending[at] == rest[k]);
    }
    if exists|k: int| 0 <= k < s.pending.len() && k != i && (#[trigger] s.pending[k]).key == served {
        let k = choose|k: int|
            0 <= k < s.pending.len() && k != i && (#[trigger] s.pending[k]).key == served;
        let at = if k < i {
            k
        } else {
            k - 1
        };
        assert(rest[at] == s.pending[k]);
    }
}

/// Taking out by identifier takes out the first request that has it, and nothing where none has;
/// all that does not wait stays as it is.
pub proof fn law_taking_out_by_identifier(s: Plan, i: int)
    requires
        0 <= i < s.pending.len(),
        forall|k: int| 0 <= k < i ==> (#[trigger] s.pending[k]).id != s.pending[i].id,
    ensures
        removed(s, s.pending[i].id) == without(s, i),
        without(s, i) == (Plan {
            pending: s.pending.remove(i),
            tenants: without(s, i).tenants,
            conversations: without(s, i).conversations,
            ..s
        }),
        forall|id: Seq<char>|
            (forall|k: int| 0 <= k < s.pending.len() ==> (#[trigger] s.pending[k]).id != id)
                ==> #[trigger] removed(s, id) == s,
{
    let id = s.pending[i].id;
    lemma_position_of_id(s.pending, id);
    if position_of_id(s.pending, id) is None {
        assert(s.pending[i].id != id);
    } else {
        let first = position_of_id(s.pending, id)->0;
        if first > i {
            assert(s.pending[i].id != id);
        }
    }
    assert forall|other: Seq<char>|
        (forall|k: int| 0 <= k < s.pending.len() ==> (#[trigger] s.pending[k]).id != other) implies
            #[trigger] removed(s, other) == s by {
        lemma_position_of_id(s.pending, other);
    }
}

/// Of two tenants that both have a request that may start and are alike in whether they run
/// something, the one that has just had a turn waits for the other's.
pub proof fn law_no_second_turn_before_the_other(
    s: Plan,
    i: int,
    later: Plan,
    c: Config,
    now: u128,
    j: int,
)
    requires
        0 <= i < s.pending.len(),
        later.tenants == without(s, i).tenants,
        s.tenants.contains(later.pending[j].key.0),
        later.pending[j].key.0 != s.pending[i].key.0,
        may_start(later, c, j, now),
        stands_in_line(later, j),
        runs_something(later, later.pending[j].key.0) == runs_something(later, s.pending[i].key.0),
        selected_position(later, c, now) is Some,
    ensures
        later.pending[selected_position(later, c, now)->0].key.0 != s.pending[i].key.0,
{
    let other = later.pending[j].key.0;
    law_tenant_goes_to_the_back(s, i, other, other);
    if later.pending[selected_position(later, c, now)->0].key.0 == s.pending[i].key.0 {
        law_tenants_take_turns(later, c, now, j);
    }
}

/// The order of tenants that are not served is kept while others are served and join, so that of
/// two tenants that both wait on the one that came first, or was served longer ago, stays first.
pub proof fn law_places_in_the_queue_last(
    s: Plan,
    i: int,
    x: Seq<char>,
    y: Seq<char>,
    newcomer: Seq<char>,
)
    requires
        0 <= i < s.pending.len(),
        x != s.pending[i].key.0,
        y != s.pending[i].key.0,
        stands_before(s.tenants, x, y),
    ensures
        stands_before(without(s, i).tenants, x, y),
        stands_before(s.tenants.push(newcomer), x, y),
{
    law_tenant_goes_to_the_back(s, i, x, y);
    let (a, b) = choose|a: int, b: int|
        0 <= a < b < s.tenants.len() && #[trigger] s.tenants[a] == x && #[trigger] s.tenants[b] == y;
    let more = s.tenants.push(newcomer);
    assert(more[a] == x && more[b] == y);
}

} // verus!
