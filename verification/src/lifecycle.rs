//! What becomes of a request after it got its turn, and what an operator can do about it.
use crate::admission::Lease;
use crate::clock;
use crate::digest;
use crate::clock::seconds_of;
use crate::clock::LAST_INSTANT;
use crate::journal;
use crate::journal::Entry;
use crate::journal::Ledger;
use crate::rejection::Rejection;
use crate::scheduler;
use crate::scheduler::Attempt;
use crate::scheduler::Binding;
use crate::scheduler::Config;
use crate::scheduler::Plan;
use crate::scheduler::State;
use crate::scheduler::Timing;
use crate::signals::EvidenceView;
use crate::signals::Noted;
use crate::signals::Observation;
use crate::signals::Signals;
use crate::signals::SignalsView;
use crate::table;
use crate::table::Table;
use crate::text;
use crate::text::same;
use crate::throttle;
use crate::throttle::Throttle;
use vstd::prelude::*;

verus! {

broadcast use {
    vstd::seq_lib::group_seq_properties,
    vstd::map::group_map_axioms,
    vstd::set::group_set_axioms,
};

/// How a request that got its turn ended.
#[derive(Debug)]
pub enum Outcome {
    /// It was never sent.
    NotSent,
    /// It is known how the response ended.
    Confirmed(Observation),
    /// It may still run upstream.
    Unknown,
}

/// The model of an `Outcome`.
pub enum Fate {
    NotSent,
    Confirmed(Noted),
    Unknown,
}

impl View for Outcome {
    type V = Fate;

    open spec fn view(&self) -> Fate {
        match *self {
            Outcome::NotSent => Fate::NotSent,
            Outcome::Confirmed(o) => Fate::Confirmed(o@),
            Outcome::Unknown => Fate::Unknown,
        }
    }
}

/// The model of a lease.
pub struct Grant {
    pub id: Seq<char>,
    pub key: (Seq<char>, Seq<char>),
    pub fingerprint: Seq<char>,
    pub evidence: EvidenceView,
    pub deadline: u128,
}

pub open spec fn grant(l: Lease) -> Grant {
    Grant {
        id: l.id@,
        key: l.key@,
        fingerprint: l.fingerprint@,
        evidence: l.evidence@,
        deadline: l.deadline,
    }
}

/// When the next request may start after one started.
pub open spec fn next_start(c: Config, now: u128) -> Option<u128> {
    if c.start_gap == 0 {
        None
    } else {
        Some((now + c.start_gap) as u128)
    }
}

/// The state after a request was recorded as sent, or why it must not be sent.
pub open spec fn launched(s: Plan, g: Grant, c: Config, now: u128, wall: u64) -> (Plan, Result<
    (),
    Rejection,
>) {
    let records = journal::remembered(s.journal.records, wall);
    match journal::refusal(records, g.id, g.fingerprint) {
        Some(e) => (Plan { journal: (Ledger { records, ..s.journal }), ..s }, Err(e)),
        None => (
            Plan {
                journal: (Ledger {
                    records: records.insert(
                        g.id,
                        journal::started(
                            g.fingerprint,
                            Some(scheduler::conversation_digest(g.key)),
                        ),
                    ),
                    ..s.journal
                }),
                dispatching: None,
                next_start: next_start(c, now),
                ..s
            },
            Ok(()),
        ),
    }
}

/// What is known of a conversation's timing after a turn.
pub open spec fn timed(
    m: Map<(Seq<char>, Seq<char>), Timing>,
    g: Grant,
    seen: Noted,
    now: u128,
) -> Map<(Seq<char>, Seq<char>), Timing> {
    if m.contains_key(g.key) {
        m.insert(
            g.key,
            Timing {
                finished: Some(now),
                signals: SignalsView { input: g.evidence, output: seen, finished: Some(now) },
            },
        )
    } else {
        m
    }
}

/// The state after a request ended: what may still run upstream keeps its capacity.
pub open spec fn settled(s: Plan, g: Grant, fate: Fate, now: u128, wall: u64) -> Plan {
    let freed = Plan {
        running: s.running.remove(g.key),
        attempts: s.attempts.remove(g.id),
        dispatching: if s.dispatching == Some(g.id) {
            None
        } else {
            s.dispatching
        },
        ..s
    };
    match fate {
        Fate::NotSent => freed,
        Fate::Confirmed(seen) => Plan {
            journal: (Ledger {
                records: journal::changed(
                    s.journal.records,
                    g.id,
                    |e: Entry| e.finished(wall),
                ),
                ..s.journal
            }),
            bindings: timed(s.bindings, g, seen, now),
            ..freed
        },
        Fate::Unknown => Plan {
            journal: (Ledger {
                records: journal::changed(
                    s.journal.records,
                    g.id,
                    |e: Entry| e.quarantined(wall),
                ),
                ..s.journal
            }),
            quarantined: s.quarantined.insert(
                g.id,
                Some(scheduler::conversation_digest(g.key)),
            ),
            ..freed
        },
    }
}

/// The state after the account answered with a status, which the journal keeps too.
pub open spec fn told(
    s: Plan,
    c: Config,
    status: u16,
    hint: Option<u128>,
    now: u128,
    wall: u128,
) -> Plan {
    let throttle = throttle::observed(
        s.throttle,
        status,
        hint,
        now,
        wall,
        scheduler::configured_max(s, c),
    );
    Plan {
        throttle,
        journal: journal::account_saved(
            s.journal,
            throttle,
            now,
            clock::whole_seconds(wall),
        ),
        ..s
    }
}

/// The state after the account in use was changed: nothing is known of the new one.
pub open spec fn renewed(s: Plan, c: Config, now: u128, wall: u64) -> Plan {
    let throttle = throttle::fresh(scheduler::configured_max(s, c));
    Plan { throttle, journal: journal::account_saved(s.journal, throttle, now, wall), ..s }
}

/// The state after everything that may still run was taken as ended.
pub open spec fn recovered(s: Plan, wall: u64) -> Plan {
    Plan {
        quarantined: Map::empty(),
        uncertain: false,
        journal: (Ledger {
            records: s.journal.records.map_values(|e: Entry| e.acknowledged(wall)),
            ..s.journal
        }),
        ..s
    }
}

/// The state after a request that may still run was checked.
pub open spec fn rechecked(s: Plan, id: Seq<char>, released: bool, wall: u64) -> Plan {
    Plan {
        quarantined: if released {
            s.quarantined.remove(id)
        } else {
            s.quarantined
        },
        journal: (Ledger {
            records: journal::changed(
                s.journal.records,
                id,
                |e: Entry| e.checked(released, wall),
            ),
            ..s.journal
        }),
        ..s
    }
}

/// The status that a response stands for whose end was seen.
pub open spec fn sign(seen: Noted) -> Option<u16> {
    if seen.quota_exhausted {
        Some(402)
    } else if seen.rate_limited {
        Some(429)
    } else if seen.successful {
        Some(200)
    } else {
        None
    }
}

/// Whether nothing waits, runs or may still run.
pub open spec fn idle(s: Plan) -> bool {
    s.pending.len() == 0 && s.running.dom().len() == 0 && s.quarantined.dom().len() == 0
        && !s.uncertain
}

/// The status that a response stands for whose end was seen, if any.
pub fn sign_of(seen: &Observation) -> (r: Option<u16>)
    ensures
        r == sign(seen@),
{
    if seen.quota_exhausted {
        Some(402)
    } else if seen.rate_limited {
        Some(429)
    } else if seen.successful {
        Some(200)
    } else {
        None
    }
}

impl State {
    /// Records a request as sent, before it is; the journal has to be saved before it is sent.
    pub fn launch(&mut self, lease: &Lease, now: u128, wall: u64, config: &Config) -> (r: Result<
        (),
        Rejection,
    >)
        requires
            old(self).wf(),
            now + config.start_gap <= LAST_INSTANT,
        ensures
            final(self).wf(),
            (final(self)@, r) == launched(old(self)@, grant(*lease), *config, now, wall),
    {
        match self.journal.start(&lease.id, &lease.fingerprint, Some(lease.key.digest()), wall) {
            Err(e) => Err(e),
            Ok(()) => {
                self.dispatching = None;
                self.next_start =
                if config.start_gap == 0 {
                    None
                } else {
                    Some(now + config.start_gap)
                };
                Ok(())
            },
        }
    }

    /// Notes how a request ended; the journal has to be saved.
    pub fn settle(&mut self, lease: Lease, outcome: Outcome, now: u128, wall: u64)
        requires
            old(self).wf(),
        ensures
            final(self).wf(),
            final(self)@ == settled(old(self)@, grant(lease), outcome@, now, wall),
    {
        let ghost s = self@;
        proof {
            table::lemma_mapped_remove(self.running@, |id: String| id@, lease.key@);
            table::lemma_mapped_remove(
                self.attempts@,
                |a: Attempt| a.fingerprint@,
                lease.id@,
            );
        }
        let _ = self.running.remove(&lease.key);
        let _ = self.attempts.remove(&lease.id);
        let own = match &self.dispatching {
            Some(id) => same(id, &lease.id),
            None => false,
        };
        if own {
            self.dispatching = None;
        }
        match outcome {
            Outcome::NotSent => {},
            Outcome::Confirmed(seen) => {
                self.journal.finish(&lease.id, wall);
                if self.bindings.has(&lease.key) {
                    let binding = Binding {
                        finished: Some(now),
                        signals: Signals {
                            input: lease.evidence,
                            output: seen,
                            finished: Some(now),
                        },
                    };
                    proof {
                        table::lemma_mapped_insert(
                            self.bindings@,
                            |b: Binding| b@,
                            lease.key@,
                            binding,
                        );
                    }
                    self.bindings.insert(lease.key, binding);
                }
            },
            Outcome::Unknown => {
                self.journal.quarantine(&lease.id, wall);
                let conversation = Some(lease.key.digest());
                proof {
                    table::lemma_mapped_insert(
                        self.quarantined@,
                        |o: Option<String>| text::text_option(o),
                        lease.id@,
                        conversation,
                    );
                }
                self.quarantined.insert(lease.id, conversation);
            },
        }
    }

    /// Takes in what the account answered with; the journal has to be saved.
    pub fn feedback(
        &mut self,
        status: u16,
        headers: &Table<String, String>,
        now: u128,
        wall: u128,
        config: &Config,
    )
        requires
            old(self).wf(),
            headers.wf(),
            old(self)@.throttle.successes < u32::MAX,
        ensures
            final(self).wf(),
            final(self)@ == told(
                old(self)@,
                *config,
                status,
                throttle::hint_of(headers@, wall),
                now,
                wall,
            ),
    {
        let maximum = self.configured_max(config);
        self.throttle.observe(status, headers, now, wall, maximum);
        self.journal.save_account(&self.throttle, now, seconds_of(wall));
    }

    /// Whether nothing waits, runs or may still run, so that the account can be changed.
    pub fn is_idle(&self) -> (r: bool)
        requires
            self.wf(),
        ensures
            r == idle(self@),
    {
        assert(self@.running.dom() =~= self.running@.dom());
        assert(self@.quarantined.dom() =~= self.quarantined@.dom());
        self.pending.is_empty() && self.running.len() == 0 && self.quarantined.len() == 0
            && !self.uncertain
    }

    /// Forgets what is known of an account that is no longer in use; the journal has to be
    /// saved.
    pub fn account_changed(&mut self, now: u128, wall: u64, config: &Config)
        requires
            old(self).wf(),
        ensures
            final(self).wf(),
            final(self)@ == renewed(old(self)@, *config, now, wall),
    {
        self.throttle = Throttle::with_limit(self.configured_max(config));
        self.journal.save_account(&self.throttle, now, wall);
    }

    /// Holds back every start until it is taken back.
    pub fn pause(&mut self)
        requires
            old(self).wf(),
        ensures
            final(self).wf(),
            final(self)@ == (Plan { paused: true, ..old(self)@ }),
    {
        self.paused = true;
    }

    /// Takes a pause back, unless it is unknown what still runs.
    pub fn resume(&mut self) -> (r: Result<(), Rejection>)
        requires
            old(self).wf(),
        ensures
            final(self).wf(),
            old(self)@.uncertain ==> r == Err::<(), Rejection>(Rejection::Unavailable)
                && final(self)@ == old(self)@,
            !old(self)@.uncertain ==> r is Ok && final(self)@ == (Plan {
                paused: false,
                ..old(self)@
            }),
    {
        if self.uncertain {
            return Err(Rejection::Unavailable);
        }
        self.paused = false;
        Ok(())
    }

    /// Takes everything that may still run as ended, on an operator's word.
    pub fn recover(&mut self, wall: u64)
        requires
            old(self).wf(),
        ensures
            final(self).wf(),
            final(self)@ == recovered(old(self)@, wall),
    {
        self.journal.acknowledge_unknown(wall);
        self.quarantined = Table::new();
        assert(scheduler::quarantine_view(self.quarantined@) =~= Map::empty());
        self.uncertain = false;
    }

    /// Notes the result of checking a request that may still run; one that is released gives
    /// its capacity back.
    pub fn checked(&mut self, id: &String, released: bool, wall: u64)
        requires
            old(self).wf(),
        ensures
            final(self).wf(),
            final(self)@ == rechecked(old(self)@, id@, released, wall),
    {
        self.journal.recovery_result(id, released, wall);
        if released {
            proof {
                table::lemma_mapped_remove(
                    self.quarantined@,
                    |o: Option<String>| text::text_option(o),
                    id@,
                );
            }
            let _ = self.quarantined.remove(id);
        }
    }
}

/// A request that may still run keeps its capacity, and its conversation does not start again.
pub proof fn law_unknown_outcome_keeps_capacity(
    s: Plan,
    g: Grant,
    c: Config,
    p: scheduler::Waiting,
    now: u128,
    wall: u64,
)
    requires
        s.running.contains_key(g.key),
        s.running.dom().finite(),
        s.quarantined.dom().finite(),
        !s.quarantined.contains_key(g.id),
        p.key == g.key,
    ensures
        ({
            let after = settled(s, g, Fate::Unknown, now, wall);
            &&& scheduler::load(after) == scheduler::load(s)
            &&& !scheduler::startable(after, c, p, now)
        }),
{
    let after = settled(s, g, Fate::Unknown, now, wall);
    assert(after.running.dom() =~= s.running.dom().remove(g.key));
    assert(after.quarantined.dom() =~= s.quarantined.dom().insert(g.id));
    assert(after.quarantined.contains_key(g.id));
    assert(scheduler::isolated(after, g.key));
}

/// A request whose end is known gives its capacity back, and cannot be sent again under its
/// identifier while it is remembered.
pub proof fn law_confirmed_outcome_frees_capacity(
    s: Plan,
    g: Grant,
    seen: Noted,
    now: u128,
    wall: u64,
    later: u64,
)
    requires
        s.running.contains_key(g.key),
        s.running.dom().finite(),
        s.journal.records.contains_key(g.id),
        s.journal.records[g.id].fingerprint == g.fingerprint,
        wall <= later < wall + journal::REMEMBERED,
    ensures
        ({
            let after = settled(s, g, Fate::Confirmed(seen), now, wall);
            &&& scheduler::load(after) == scheduler::load(s) - 1
            &&& journal::refusal(
                journal::remembered(after.journal.records, later),
                g.id,
                g.fingerprint,
            ) == Some(Rejection::Completed)
        }),
{
    let after = settled(s, g, Fate::Confirmed(seen), now, wall);
    assert(after.running.dom() =~= s.running.dom().remove(g.key));
    assert(after.journal.records.contains_key(g.id));
    assert(journal::remembered(after.journal.records, later).contains_key(g.id));
}

/// A request is recorded before it is sent: once it may be, a second one under its identifier
/// is refused.
pub proof fn law_sent_only_once(s: Plan, g: Grant, c: Config, now: u128, wall: u64)
    requires
        launched(s, g, c, now, wall).1 is Ok,
    ensures
        launched(launched(s, g, c, now, wall).0, g, c, now, wall).1 == Err::<(), Rejection>(
            Rejection::Duplicate,
        ),
{
    let records = journal::remembered(s.journal.records, wall);
    journal::law_start_once(
        records,
        g.id,
        g.fingerprint,
        Some(scheduler::conversation_digest(g.key)),
        g.fingerprint,
        wall,
    );
}

/// A request may be sent exactly where nothing is remembered under its identifier and fewer than
/// 4096 requests are. It is then recorded as one that is not over, with the digest of its
/// conversation; the next start may come after the time that is set between two.
pub proof fn law_what_sending_changes(
    s: Plan,
    g: Grant,
    c: Config,
    now: u128,
    wall: u64,
    other: Seq<char>,
)
    requires
        now + c.start_gap <= LAST_INSTANT,
    ensures
        ({
            let (after, r) = launched(s, g, c, now, wall);
            let known = journal::remembered(s.journal.records, wall);
            &&& r is Ok <==> !known.contains_key(g.id) && known.dom().len() < 4096
            &&& after == (Plan {
                journal: after.journal,
                dispatching: after.dispatching,
                next_start: after.next_start,
                ..s
            })
            &&& after.journal == (Ledger { records: after.journal.records, ..s.journal })
            &&& r is Err ==> after.dispatching == s.dispatching && after.next_start
                == s.next_start && after.journal.records == known
            &&& r is Ok ==> {
                &&& after.dispatching is None
                &&& c.start_gap == 0 ==> after.next_start is None
                &&& c.start_gap > 0 ==> after.next_start == Some((now + c.start_gap) as u128)
                &&& after.journal.records.dom() == known.dom().insert(g.id)
                &&& after.journal.records[g.id].fingerprint == g.fingerprint
                &&& after.journal.records[g.id].conversation == Some(
                    digest::pair_digest(g.key.0, g.key.1),
                )
                &&& after.journal.records[g.id].finished_at is None
                &&& after.journal.records[g.id].released_at is None
                &&& other != g.id && known.contains_key(other) ==> after.journal.records[other]
                    == known[other]
            }
        }),
{
    let (after, r) = launched(s, g, c, now, wall);
    let known = journal::remembered(s.journal.records, wall);
    journal::law_what_a_recorded_request_is_told(known, g.id, g.fingerprint);
    if r is Ok {
        assert(after.journal.records.dom() =~= known.dom().insert(g.id));
    }
}

/// However a request ends, its conversation does not run any more, it is not being sent, and all
/// that waits stays. Nothing is recorded of one that was not sent. The record of one whose end was
/// seen gets that end, and its conversation rests from then on. One whose end is not known may
/// still run: it keeps its capacity under the digest of its conversation, and its record waits for
/// a check.
pub proof fn law_how_requests_end(s: Plan, g: Grant, fate: Fate, now: u128, wall: u64)
    ensures
        ({
            let after = settled(s, g, fate, now, wall);
            let known = s.journal.records.contains_key(g.id);
            &&& after == (Plan {
                running: s.running.remove(g.key),
                attempts: s.attempts.remove(g.id),
                dispatching: after.dispatching,
                journal: (Ledger { records: after.journal.records, ..s.journal }),
                bindings: after.bindings,
                quarantined: after.quarantined,
                ..s
            })
            &&& s.dispatching == Some(g.id) ==> after.dispatching is None
            &&& s.dispatching != Some(g.id) ==> after.dispatching == s.dispatching
            &&& fate is NotSent ==> after.journal.records == s.journal.records && after.bindings
                == s.bindings && after.quarantined == s.quarantined
            &&& fate matches Fate::Confirmed(seen) ==> {
                &&& after.quarantined == s.quarantined
                &&& known ==> after.journal.records == s.journal.records.insert(
                    g.id,
                    Entry { finished_at: Some(wall), ..s.journal.records[g.id] },
                )
                &&& !known ==> after.journal.records == s.journal.records
                &&& s.bindings.contains_key(g.key) ==> after.bindings == s.bindings.insert(
                    g.key,
                    Timing {
                        finished: Some(now),
                        signals: SignalsView {
                            input: g.evidence,
                            output: seen,
                            finished: Some(now),
                        },
                    },
                )
                &&& !s.bindings.contains_key(g.key) ==> after.bindings == s.bindings
            }
            &&& fate is Unknown ==> {
                &&& after.bindings == s.bindings
                &&& after.quarantined == s.quarantined.insert(
                    g.id,
                    Some(digest::pair_digest(g.key.0, g.key.1)),
                )
                &&& known ==> after.journal.records == s.journal.records.insert(
                    g.id,
                    s.journal.records[g.id].quarantined(wall),
                ) && after.journal.records[g.id].next_check_at is Some
                    && after.journal.records[g.id].finished_at
                    == s.journal.records[g.id].finished_at
                &&& !known ==> after.journal.records == s.journal.records
            }
        }),
{
}

/// A response that tells that the quota is used up stands for 402, whatever else it tells; one
/// that tells of too many requests for 429; a success for 200; and any other for nothing.
pub proof fn law_what_a_response_stands_for(seen: Noted)
    ensures
        sign(seen) == Some(402u16) <==> seen.quota_exhausted,
        sign(seen) == Some(429u16) <==> !seen.quota_exhausted && seen.rate_limited,
        sign(seen) == Some(200u16) <==> !seen.quota_exhausted && !seen.rate_limited
            && seen.successful,
        sign(seen) is None <==> !seen.quota_exhausted && !seen.rate_limited && !seen.successful,
{
}

/// What an account answers changes what is known of it, up to the number of requests that the
/// operator allows, and the journal keeps it; nothing else changes.
pub proof fn law_answers_reach_the_journal(
    s: Plan,
    c: Config,
    status: u16,
    hint: Option<u128>,
    now: u128,
    wall: u128,
)
    ensures
        ({
            let after = told(s, c, status, hint, now, wall);
            let most = if s.max_running == 0 {
                c.max_running
            } else {
                s.max_running
            };
            &&& after.throttle == throttle::observed(s.throttle, status, hint, now, wall, most)
            &&& after.journal.records == s.journal.records
            &&& after.journal.account_blocked == after.throttle.blocked
            &&& after.journal.concurrency == after.throttle.limit
            &&& after.journal.cooldown_until is Some <==> after.throttle.until is Some
            &&& after == (Plan { throttle: after.throttle, journal: after.journal, ..s })
        }),
{
}

/// An account can be changed only while nothing waits, runs or may still run.
pub proof fn law_what_idle_means(s: Plan)
    requires
        s.running.dom().finite(),
        s.quarantined.dom().finite(),
    ensures
        idle(s) <==> {
            &&& s.pending == Seq::<scheduler::Waiting>::empty()
            &&& forall|k: (Seq<char>, Seq<char>)| !#[trigger] s.running.contains_key(k)
            &&& forall|id: Seq<char>| !#[trigger] s.quarantined.contains_key(id)
            &&& !s.uncertain
        },
{
    if s.pending.len() == 0 {
        assert(s.pending =~= Seq::empty());
    }
    if s.running.dom().len() == 0 {
        assert forall|k: (Seq<char>, Seq<char>)| !#[trigger] s.running.contains_key(k) by {
            assert(!s.running.dom().contains(k));
        }
    } else {
        let k = s.running.dom().choose();
        assert(s.running.contains_key(k));
    }
    if s.quarantined.dom().len() == 0 {
        assert forall|id: Seq<char>| !#[trigger] s.quarantined.contains_key(id) by {
            assert(!s.quarantined.dom().contains(id));
        }
    } else {
        let id = s.quarantined.dom().choose();
        assert(s.quarantined.contains_key(id));
    }
}

/// After a change of accounts nothing is held against the new one: no block, no delay, and as many
/// requests as the operator allows. The records stay.
pub proof fn law_a_new_account_starts_afresh(s: Plan, c: Config, now: u128, wall: u64)
    ensures
        ({
            let after = renewed(s, c, now, wall);
            &&& !after.throttle.blocked && after.throttle.blocked_reason is None
            &&& after.throttle.until is None
            &&& after.throttle.failures == 0 && after.throttle.limited == 0
                && after.throttle.successes == 0 && after.throttle.healthy_since is None
            &&& s.max_running > 0 ==> after.throttle.limit == s.max_running
            &&& s.max_running == 0 ==> after.throttle.limit == c.max_running
            &&& !after.journal.account_blocked && after.journal.cooldown_until is None
            &&& after.journal.concurrency == after.throttle.limit
            &&& after.journal.records == s.journal.records
            &&& after == (Plan { throttle: after.throttle, journal: after.journal, ..s })
        }),
{
}

/// On an operator's word nothing may still run: no capacity is held for it, and every record has an
/// end, of which one that had one keeps it. What waits and what runs stays.
pub proof fn law_recovery_ends_everything(s: Plan, wall: u64, id: Seq<char>)
    ensures
        ({
            let after = recovered(s, wall);
            &&& !after.uncertain
            &&& !after.quarantined.contains_key(id)
            &&& after.journal.records.contains_key(id) <==> s.journal.records.contains_key(id)
            &&& s.journal.records.contains_key(id) ==> {
                &&& s.journal.records[id].finished_at is Some ==> after.journal.records[id]
                    == s.journal.records[id]
                &&& s.journal.records[id].finished_at is None ==> after.journal.records[id]
                    == (Entry { finished_at: Some(wall), ..s.journal.records[id] })
            }
            &&& after == (Plan {
                quarantined: after.quarantined,
                uncertain: false,
                journal: (Ledger { records: after.journal.records, ..s.journal }),
                ..s
            })
        }),
{
}

/// A request that is found to have ended gives its capacity back, and its record counts as given
/// up; one that is not keeps it and is checked again. No other request is touched.
pub proof fn law_what_a_check_gives_back(
    s: Plan,
    id: Seq<char>,
    released: bool,
    wall: u64,
    other: Seq<char>,
)
    requires
        s.quarantined.dom().finite(),
        s.quarantined.contains_key(id),
        s.journal.records.contains_key(id),
    ensures
        ({
            let after = rechecked(s, id, released, wall);
            &&& released ==> !after.quarantined.contains_key(id) && after.quarantined.dom().len()
                == s.quarantined.dom().len() - 1
            &&& !released ==> after.quarantined == s.quarantined
            &&& after.journal.records[id] == s.journal.records[id].checked(released, wall)
            &&& other != id && s.quarantined.contains_key(other)
                ==> after.quarantined.contains_key(other) && after.quarantined[other]
                == s.quarantined[other]
            &&& other != id && s.journal.records.contains_key(other)
                ==> after.journal.records[other] == s.journal.records[other]
            &&& after.running == s.running && after.pending == s.pending && after.throttle
                == s.throttle
        }),
{
    if released {
        assert(rechecked(s, id, released, wall).quarantined.dom() =~= s.quarantined.dom().remove(
            id,
        ));
    }
}

} // verus!
