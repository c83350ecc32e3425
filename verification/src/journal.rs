//! Bounded dispatch journal. No prompts, routing tokens or response bytes are kept.
use crate::clock;
use crate::clock::saturating_second;
use crate::clock::seconds_of;
use crate::clock::since;
use crate::clock::SECOND;
use crate::json::Json;
use crate::json::Quantity;
use crate::json::Tree;
use crate::rejection::Rejection;
use crate::table;
use crate::table::Table;
use crate::text;
use crate::text::copy_option;
use crate::text::same;
use crate::throttle::Throttle;
use vstd::prelude::*;

verus! {

broadcast use {vstd::seq_lib::group_seq_properties, vstd::map::group_map_axioms};

/// How many records a journal holds.
pub const MAX_RECORDS: usize = 4096;

/// The largest journal file, in bytes.
pub const MAX_FILE: u64 = 4_194_304;

/// How long a finished request is remembered, in seconds.
pub const REMEMBERED: u64 = 600;

/// What is kept of one request.
#[derive(Debug)]
pub struct Record {
    pub fingerprint: String,
    pub conversation: Option<String>,
    pub quarantined_at: Option<u64>,
    pub next_check_at: Option<u64>,
    pub recovery_step: u8,
    /// Giving up a local reservation does not tell how the request ended upstream.
    pub released_at: Option<u64>,
    /// None means committed to dispatch, without a lasting acknowledgement of its end.
    pub finished_at: Option<u64>,
}

/// The model of a `Record`.
pub struct Entry {
    pub fingerprint: Seq<char>,
    pub conversation: Option<Seq<char>>,
    pub quarantined_at: Option<u64>,
    pub next_check_at: Option<u64>,
    pub recovery_step: u8,
    pub released_at: Option<u64>,
    pub finished_at: Option<u64>,
}

#[derive(Debug)]
pub struct Journal {
    pub records: Table<String, Record>,
    pub cooldown_until: Option<u64>,
    pub account_blocked: bool,
    pub concurrency: usize,
}

/// The model of a `Journal`.
pub struct Ledger {
    pub records: Map<Seq<char>, Entry>,
    pub cooldown_until: Option<u64>,
    pub account_blocked: bool,
    pub concurrency: usize,
}

pub open spec fn entry(r: Record) -> Entry {
    Entry {
        fingerprint: r.fingerprint@,
        conversation: text::text_option(r.conversation),
        quarantined_at: r.quarantined_at,
        next_check_at: r.next_check_at,
        recovery_step: r.recovery_step,
        released_at: r.released_at,
        finished_at: r.finished_at,
    }
}

pub open spec fn entries(m: Map<Seq<char>, Record>) -> Map<Seq<char>, Entry> {
    m.map_values(|r: Record| entry(r))
}

impl View for Journal {
    type V = Ledger;

    open spec fn view(&self) -> Ledger {
        Ledger {
            records: entries(self.records@),
            cooldown_until: self.cooldown_until,
            account_blocked: self.account_blocked,
            concurrency: self.concurrency,
        }
    }
}

impl Entry {
    /// Whether the request may still run upstream.
    pub open spec fn open(self) -> bool {
        self.finished_at is None && self.released_at is None
    }

    /// Whether the record is still remembered.
    pub open spec fn remembered(self, now: u64) -> bool {
        self.finished_at matches Some(at) ==> (now < at || now - at < REMEMBERED)
    }

    pub open spec fn finished(self, now: u64) -> Entry {
        Entry { finished_at: Some(now), ..self }
    }

    pub open spec fn quarantined(self, now: u64) -> Entry {
        Entry {
            quarantined_at: match self.quarantined_at {
                Some(at) => Some(at),
                None => Some(now),
            },
            next_check_at: match self.next_check_at {
                Some(at) => Some(at),
                None => Some(clock::later_second(now, 10)),
            },
            ..self
        }
    }

    pub open spec fn acknowledged(self, now: u64) -> Entry {
        if self.finished_at is None {
            self.finished(now)
        } else {
            self
        }
    }

    /// An open record of an earlier run that waits for no check is checked soon.
    pub open spec fn migrated(self, now: u64) -> Entry {
        if self.open() && self.next_check_at is None {
            self.quarantined(now)
        } else {
            self
        }
    }

    /// The record after a check of a quarantined request: released, or to be checked again
    /// after 10, 20 and 30 seconds in turn.
    pub open spec fn checked(self, released: bool, at: u64) -> Entry {
        if released {
            Entry { released_at: Some(at), next_check_at: None, ..self }
        } else {
            let step = next_step(self.recovery_step);
            Entry {
                recovery_step: step,
                next_check_at: Some(clock::later_second(at, step_delay(step))),
                ..self
            }
        }
    }

    /// Whether a quarantined request is to be checked.
    pub open spec fn due(self, at: u64) -> bool {
        self.open() && (self.next_check_at matches Some(next) && next <= at)
    }
}

pub open spec fn next_step(step: u8) -> u8 {
    ((step % 3 + 1) % 3) as u8
}

pub open spec fn step_delay(step: u8) -> u64 {
    if step == 0 {
        10
    } else if step == 1 {
        20
    } else {
        30
    }
}

/// A record of a request that is about to start.
pub open spec fn started(fingerprint: Seq<char>, conversation: Option<Seq<char>>) -> Entry {
    Entry {
        fingerprint,
        conversation,
        quarantined_at: None,
        next_check_at: None,
        recovery_step: 0,
        released_at: None,
        finished_at: None,
    }
}

/// The records that are still remembered.
pub open spec fn remembered(m: Map<Seq<char>, Entry>, now: u64) -> Map<Seq<char>, Entry> {
    table::kept(m, |k: Seq<char>, e: Entry| e.remembered(now))
}

/// Why a request with this identifier and fingerprint cannot start.
pub open spec fn refusal(
    m: Map<Seq<char>, Entry>,
    id: Seq<char>,
    fingerprint: Seq<char>,
) -> Option<Rejection> {
    if m.contains_key(id) {
        let e = m[id];
        Some(
            if e.fingerprint != fingerprint {
                Rejection::Conflict
            } else if e.finished_at is Some {
                Rejection::Completed
            } else if e.released_at is Some {
                Rejection::OutcomeUnknown
            } else {
                Rejection::Duplicate
            },
        )
    } else if m.dom().len() >= MAX_RECORDS {
        Some(Rejection::Full)
    } else {
        None
    }
}

pub open spec fn verdict(refusal: Option<Rejection>) -> Result<(), Rejection> {
    match refusal {
        Some(e) => Err(e),
        None => Ok(()),
    }
}

/// The record with this identifier changed, where there is one.
pub open spec fn changed(
    m: Map<Seq<char>, Entry>,
    id: Seq<char>,
    f: spec_fn(Entry) -> Entry,
) -> Map<Seq<char>, Entry> {
    if m.contains_key(id) {
        m.insert(id, f(m[id]))
    } else {
        m
    }
}

/// The requests to be checked, with their conversations, in the journal's order.
pub open spec fn due_pairs(records: Seq<(String, Record)>, at: u64) -> Seq<(Seq<char>, Seq<char>)>
    decreases records.len(),
{
    if records.len() == 0 {
        Seq::empty()
    } else {
        let rest = due_pairs(records.drop_last(), at);
        let e = entry(records.last().1);
        match e.conversation {
            Some(key) => if e.due(at) {
                rest.push((records.last().0@, key))
            } else {
                rest
            },
            None => rest,
        }
    }
}

/// The conversations of open requests, in the journal's order.
pub open spec fn open_conversations(records: Seq<(String, Record)>) -> Seq<Seq<char>>
    decreases records.len(),
{
    if records.len() == 0 {
        Seq::empty()
    } else {
        let rest = open_conversations(records.drop_last());
        let e = entry(records.last().1);
        match e.conversation {
            Some(key) => if e.open() {
                rest.push(key)
            } else {
                rest
            },
            None => rest,
        }
    }
}

/// How many records were released without an end.
pub open spec fn released_count(records: Seq<(String, Record)>) -> nat
    decreases records.len(),
{
    if records.len() == 0 {
        0
    } else {
        let e = entry(records.last().1);
        released_count(records.drop_last()) + (if e.finished_at is None && e.released_at is Some {
            1nat
        } else {
            0nat
        })
    }
}

pub open spec fn earlier(a: Option<u64>, b: Option<u64>) -> Option<u64> {
    match (a, b) {
        (Some(x), Some(y)) => Some(
            if x <= y {
                x
            } else {
                y
            },
        ),
        (Some(x), None) => Some(x),
        (None, y) => y,
    }
}

/// When the next quarantined request is to be checked.
pub open spec fn next_check(records: Seq<(String, Record)>) -> Option<u64>
    decreases records.len(),
{
    if records.len() == 0 {
        None
    } else {
        let e = entry(records.last().1);
        earlier(
            next_check(records.drop_last()),
            if e.open() {
                e.next_check_at
            } else {
                None
            },
        )
    }
}

pub open spec fn number_tree(n: nat) -> Tree {
    Tree::Number(Quantity::Unsigned(n as u64))
}

pub open spec fn optional_number(n: Option<u64>) -> Tree {
    match n {
        Some(n) => Tree::Number(Quantity::Unsigned(n)),
        None => Tree::Null,
    }
}

pub fn optional_json(n: Option<u64>) -> (r: Json)
    ensures
        r@ == optional_number(n),
{
    match n {
        Some(n) => Json::unsigned(n),
        None => Json::Null,
    }
}

pub open spec fn recovery_tree(records: Seq<(String, Record)>) -> Tree {
    Tree::Object(
        Map::empty().insert("released_unknown"@, number_tree(released_count(records))).insert(
            "next_check_at"@,
            optional_number(next_check(records)),
        ),
    )
}

fn is_open(record: &Record) -> (r: bool)
    ensures
        r == entry(*record).open(),
{
    record.finished_at.is_none() && record.released_at.is_none()
}

fn quarantine_record(record: &mut Record, now: u64)
    ensures
        entry(*final(record)) == entry(*old(record)).quarantined(now),
{
    if record.quarantined_at.is_none() {
        record.quarantined_at = Some(now);
    }
    if record.next_check_at.is_none() {
        record.next_check_at = Some(saturating_second(now, 10));
    }
}

/// Whether a journal of some records in a file of some bytes is taken over.
pub open spec fn is_restorable(size: u64, records: nat) -> bool {
    size <= MAX_FILE && records <= MAX_RECORDS
}

impl Journal {
    pub open spec fn wf(&self) -> bool {
        self.records.wf()
    }

    pub fn new() -> (r: Journal)
        ensures
            r.wf(),
            r@ == (Ledger {
                records: Map::empty(),
                cooldown_until: None,
                account_blocked: false,
                concurrency: 0,
            }),
    {
        let r = Journal {
            records: Table::new(),
            cooldown_until: None,
            account_blocked: false,
            concurrency: 0,
        };
        assert(entries(r.records@) =~= Map::empty());
        r
    }

    /// Takes over the journal of an earlier run from a file of `size` bytes; whether it changed
    /// and has to be saved. Nothing where the file or the journal is too large.
    pub fn restore(journal: Journal, size: u64, now: u64) -> (r: Option<(Journal, bool)>)
        requires
            journal.wf(),
        ensures
            r is Some <==> is_restorable(size, journal@.records.dom().len()),
            r matches Some((restored, migrated)) ==> {
                &&& restored.wf()
                &&& restored@ == (Ledger {
                    records: journal@.records.map_values(|e: Entry| e.migrated(now)),
                    ..journal@
                })
                &&& migrated <==> exists|id: Seq<char>| #[trigger]
                    journal@.records.contains_key(id) && journal@.records[id].open()
                        && journal@.records[id].next_check_at is None
            },
    {
        let mut journal = journal;
        let ghost first = journal.records.entries@;
        let ghost start = journal@;
        proof {
            table::lemma_map_of(first);
            assert(entries(journal.records@).dom() =~= journal.records@.dom());
        }
        if size > MAX_FILE || journal.records.len() > MAX_RECORDS {
            return None;
        }
        let ghost f = |r: Record| entry(r);
        let ghost g = |e: Entry| e.migrated(now);
        let mut migrated = false;
        let mut i: usize = 0;
        while i < journal.records.entries.len()
            invariant
                i <= journal.records.entries@.len() == first.len(),
                f == (|r: Record| entry(r)),
                g == (|e: Entry| e.migrated(now)),
                journal.cooldown_until == start.cooldown_until,
                journal.account_blocked == start.account_blocked,
                journal.concurrency == start.concurrency,
                forall|k: int|
                    0 <= k < first.len() ==> (#[trigger] journal.records.entries@[k]).0
                        == first[k].0,
                forall|k: int|
                    0 <= k < i ==> entry((#[trigger] journal.records.entries@[k]).1) == entry(
                        first[k].1,
                    ).migrated(now),
                forall|k: int|
                    i <= k < first.len() ==> #[trigger] journal.records.entries@[k] == first[k],
                migrated <==> exists|k: int|
                    0 <= k < i && entry((#[trigger] first[k]).1).open() && entry(
                        first[k].1,
                    ).next_check_at is None,
            decreases first.len() - i,
        {
            assert(journal.records.entries@[i as int] == first[i as int]);
            let record = journal.records.value_mut(i);
            if is_open(record) && record.next_check_at.is_none() {
                migrated = true;
                assert(entry(first[i as int].1).open());
                quarantine_record(record, now);
            }
            i += 1;
        }
        proof {
            table::lemma_changed_all(first, journal.records.entries@, f, g);
            assert forall|id: Seq<char>| #[trigger] start.records.contains_key(id) implies exists|
                k: int,
            |
                0 <= k < first.len() && (#[trigger] first[k]).0@ == id && entry(first[k].1)
                    == start.records[id] by {
                assert(table::map_of(first).contains_key(id));
                let k = choose|k: int| 0 <= k < first.len() && (#[trigger] first[k]).0@ == id;
                assert(table::map_of(first)[first[k].0@] == first[k].1);
            }
            assert forall|k: int| 0 <= k < first.len() implies start.records.contains_key(
                (#[trigger] first[k]).0@,
            ) && start.records[first[k].0@] == entry(first[k].1) by {
                assert(table::map_of(first).contains_key(first[k].0@));
            }
        }
        Some((journal, migrated))
    }

    /// The conversations of open requests.
    pub fn unknown_conversations(&self) -> (r: Vec<String>)
        ensures
            text::texts(r@) == open_conversations(self.records.entries@),
    {
        let mut out: Vec<String> = Vec::new();
        let ghost all = self.records.entries@;
        let mut i: usize = 0;
        assert(all.take(0) == Seq::<(String, Record)>::empty());
        assert(text::texts(out@) =~= Seq::empty());
        while i < self.records.entries.len()
            invariant
                i <= self.records.entries@.len(),
                all == self.records.entries@,
                text::texts(out@) == open_conversations(all.take(i as int)),
            decreases self.records.entries@.len() - i,
        {
            assert(all.take(i + 1).drop_last() == all.take(i as int));
            let record = &self.records.entries[i].1;
            if is_open(record) {
                if let Some(key) = &record.conversation {
                    let ghost before = text::texts(out@);
                    out.push(key.clone());
                    assert(text::texts(out@) =~= before.push(key@));
                }
            }
            i += 1;
        }
        assert(all.take(all.len() as int) == all);
        out
    }

    /// The open requests, with their conversations.
    pub fn unfinished(&self) -> (r: Table<String, Option<String>>)
        requires
            self.wf(),
        ensures
            r.wf(),
            forall|id: Seq<char>| #[trigger]
                r@.contains_key(id) <==> self@.records.contains_key(id)
                    && self@.records[id].open(),
            forall|id: Seq<char>| #[trigger]
                r@.contains_key(id) ==> text::text_option(r@[id])
                    == self@.records[id].conversation,
    {
        let mut out: Table<String, Option<String>> = Table::new();
        let ghost all = self.records.entries@;
        let mut i: usize = 0;
        proof {
            table::lemma_map_of(all);
        }
        while i < self.records.entries.len()
            invariant
                i <= self.records.entries@.len(),
                all == self.records.entries@,
                self.wf(),
                out.wf(),
                forall|id: Seq<char>| #[trigger]
                    out@.contains_key(id) <==> exists|k: int|
                        0 <= k < i && (#[trigger] all[k]).0@ == id && entry(all[k].1).open(),
                forall|k: int|
                    0 <= k < i && entry((#[trigger] all[k]).1).open() ==> text::text_option(
                        out@[all[k].0@],
                    ) == entry(all[k].1).conversation,
            decreases self.records.entries@.len() - i,
        {
            let record = &self.records.entries[i].1;
            if is_open(record) {
                let ghost before = out@;
                out.insert(self.records.entries[i].0.clone(), copy_option(&record.conversation));
                proof {
                    assert forall|id: Seq<char>| #[trigger] out@.contains_key(id) implies exists|
                        k: int,
                    |
                        0 <= k < i + 1 && (#[trigger] all[k]).0@ == id && entry(
                            all[k].1,
                        ).open() by {
                        if before.contains_key(id) {
                            let k = choose|k: int|
                                0 <= k < i && (#[trigger] all[k]).0@ == id && entry(
                                    all[k].1,
                                ).open();
                            assert(all[k].0@ == id);
                        } else {
                            assert(all[i as int].0@ == id);
                        }
                    }
                    assert forall|k: int|
                        0 <= k < i + 1 && entry((#[trigger] all[k]).1).open() implies out@.contains_key(
                        all[k].0@,
                    ) && text::text_option(out@[all[k].0@]) == entry(all[k].1).conversation by {
                        if k < i {
                            assert(before.contains_key(all[k].0@));
                            assert(all[k].0@ != all[i as int].0@);
                        }
                    }
                }
            }
            i += 1;
        }
        proof {
            table::lemma_map_of(all);
            assert forall|id: Seq<char>| #[trigger] out@.contains_key(id) implies
                self@.records.contains_key(id) && self@.records[id].open() && text::text_option(
                out@[id],
            ) == self@.records[id].conversation by {
                let k = choose|k: int|
                    0 <= k < all.len() && (#[trigger] all[k]).0@ == id && entry(all[k].1).open();
                assert(self.records@.contains_key(all[k].0@));
            }
            assert forall|id: Seq<char>|
                self@.records.contains_key(id) && self@.records[id].open() implies #[trigger]
            out@.contains_key(id) by {
                assert(self.records@.contains_key(id));
                let k = choose|k: int| 0 <= k < all.len() && (#[trigger] all[k]).0@ == id;
                assert(self.records@[all[k].0@] == all[k].1);
            }
        }
        out
    }

    /// What was last known of the account: how long its cooldown still takes, whether it is
    /// blocked and how many requests may run at once.
    pub fn account(&self, now: u64) -> (r: (Option<u128>, bool, usize))
        ensures
            r == (remaining_cooldown(self@.cooldown_until, now), self@.account_blocked, self@.concurrency),
    {
        let cooldown: Option<u128> = match self.cooldown_until {
            Some(at) => if at > now {
                Some((at - now) as u128 * SECOND)
            } else {
                None
            },
            None => None,
        };
        (cooldown, self.account_blocked, self.concurrency)
    }

    /// Keeps what is known of the account, at an instant and a second of the wall clock.
    pub fn save_account(&mut self, throttle: &Throttle, instant: u128, now: u64)
        requires
            old(self).wf(),
        ensures
            final(self).wf(),
            final(self)@ == account_saved(old(self)@, *throttle, instant, now),
    {
        self.cooldown_until =
        match throttle.until {
            Some(at) => Some(
                saturating_second(saturating_second(now, seconds_of(since(at, instant))), 1),
            ),
            None => None,
        };
        self.account_blocked = throttle.blocked;
        self.concurrency = throttle.limit;
    }

    /// Forgets what is no longer remembered, then says whether a request may start.
    pub fn check(&mut self, id: &String, fingerprint: &str, now: u64) -> (r: Result<(), Rejection>)
        requires
            old(self).wf(),
        ensures
            final(self).wf(),
            final(self)@ == (Ledger { records: remembered(old(self)@.records, now), ..old(self)@ }),
            r == verdict(refusal(final(self)@.records, id@, fingerprint@)),
    {
        let test = |k: &String, record: &Record| -> (keep: bool)
            ensures
                keep == entry(*record).remembered(now),
            {
                match record.finished_at {
                    Some(at) => now < at || now - at < REMEMBERED,
                    None => true,
                }
            };
        let ghost p = |k: Seq<char>, record: Record| entry(record).remembered(now);
        let ghost f = |r: Record| entry(r);
        proof {
            table::lemma_mapped_kept(
                self.records@,
                f,
                p,
                |k: Seq<char>, e: Entry| e.remembered(now),
            );
        }
        self.records.retain(test, Ghost(p));
        if let Some(record) = self.records.get(id) {
            return Err(
                if !same(&record.fingerprint, fingerprint) {
                    Rejection::Conflict
                } else if record.finished_at.is_some() {
                    Rejection::Completed
                } else if record.released_at.is_some() {
                    Rejection::OutcomeUnknown
                } else {
                    Rejection::Duplicate
                },
            );
        }
        assert(self@.records.dom() =~= self.records@.dom());
        if self.records.len() >= MAX_RECORDS {
            return Err(Rejection::Full);
        }
        Ok(())
    }

    /// Commits a request to dispatch, where it may start.
    pub fn start(
        &mut self,
        id: &String,
        fingerprint: &str,
        conversation: Option<String>,
        now: u64,
    ) -> (r: Result<(), Rejection>)
        requires
            old(self).wf(),
        ensures
            final(self).wf(),
            r == verdict(
                refusal(remembered(old(self)@.records, now), id@, fingerprint@),
            ),
            final(self)@ == (Ledger {
                records: if r is Ok {
                    remembered(old(self)@.records, now).insert(
                        id@,
                        started(fingerprint@, text::text_option(conversation)),
                    )
                } else {
                    remembered(old(self)@.records, now)
                },
                ..old(self)@
            }),
    {
        match self.check(id, fingerprint, now) {
            Err(e) => Err(e),
            Ok(()) => {
                let record = Record {
                    fingerprint: fingerprint.to_owned(),
                    conversation,
                    quarantined_at: None,
                    next_check_at: None,
                    recovery_step: 0,
                    released_at: None,
                    finished_at: None,
                };
                proof {
                    table::lemma_mapped_insert(
                        self.records@,
                        |r: Record| entry(r),
                        id@,
                        record,
                    );
                }
                self.records.insert(id.clone(), record);
                Ok(())
            },
        }
    }

    /// Notes that a request came to its end.
    pub fn finish(&mut self, id: &String, now: u64)
        requires
            old(self).wf(),
        ensures
            final(self).wf(),
            final(self)@ == (Ledger {
                records: changed(old(self)@.records, id@, |e: Entry| e.finished(now)),
                ..old(self)@
            }),
    {
        let ghost before = self.records@;
        let ghost f = |r: Record| entry(r);
        if let Some(record) = self.records.get_mut(id) {
            record.finished_at = Some(now);
            proof {
                table::lemma_mapped_insert(before, f, id@, *record);
            }
        }
    }

    /// Notes that it is unknown how a request ended.
    pub fn quarantine(&mut self, id: &String, now: u64)
        requires
            old(self).wf(),
        ensures
            final(self).wf(),
            final(self)@ == (Ledger {
                records: changed(old(self)@.records, id@, |e: Entry| e.quarantined(now)),
                ..old(self)@
            }),
    {
        let ghost before = self.records@;
        let ghost f = |r: Record| entry(r);
        if let Some(record) = self.records.get_mut(id) {
            quarantine_record(record, now);
            proof {
                table::lemma_mapped_insert(before, f, id@, *record);
            }
        }
    }

    /// Notes the result of checking a quarantined request.
    pub fn recovery_result(&mut self, id: &String, released: bool, at: u64)
        requires
            old(self).wf(),
        ensures
            final(self).wf(),
            final(self)@ == (Ledger {
                records: changed(old(self)@.records, id@, |e: Entry| e.checked(released, at)),
                ..old(self)@
            }),
    {
        let ghost before = self.records@;
        let ghost f = |r: Record| entry(r);
        if let Some(record) = self.records.get_mut(id) {
            if released {
                record.released_at = Some(at);
                record.next_check_at = None;
            } else {
                let step: u8 = (record.recovery_step % 3 + 1) % 3;
                let delay: u64 = if step == 0 {
                    10
                } else if step == 1 {
                    20
                } else {
                    30
                };
                record.recovery_step = step;
                record.next_check_at = Some(saturating_second(at, delay));
            }
            proof {
                table::lemma_mapped_insert(before, f, id@, *record);
            }
        }
    }

    /// Takes every request without an end as ended.
    pub fn acknowledge_unknown(&mut self, now: u64)
        requires
            old(self).wf(),
        ensures
            final(self).wf(),
            final(self)@ == (Ledger {
                records: old(self)@.records.map_values(|e: Entry| e.acknowledged(now)),
                ..old(self)@
            }),
    {
        let ghost first = self.records.entries@;
        let ghost f = |r: Record| entry(r);
        let ghost g = |e: Entry| e.acknowledged(now);
        let mut i: usize = 0;
        while i < self.records.entries.len()
            invariant
                i <= self.records.entries@.len() == first.len(),
                first == old(self).records.entries@,
                self.cooldown_until == old(self).cooldown_until,
                self.account_blocked == old(self).account_blocked,
                self.concurrency == old(self).concurrency,
                forall|k: int|
                    0 <= k < first.len() ==> (#[trigger] self.records.entries@[k]).0 == first[k].0,
                forall|k: int|
                    0 <= k < i ==> entry((#[trigger] self.records.entries@[k]).1) == entry(
                        first[k].1,
                    ).acknowledged(now),
                forall|k: int|
                    i <= k < first.len() ==> #[trigger] self.records.entries@[k] == first[k],
            decreases first.len() - i,
        {
            assert(self.records.entries@[i as int] == first[i as int]);
            let record = self.records.value_mut(i);
            if record.finished_at.is_none() {
                record.finished_at = Some(now);
            }
            i += 1;
        }
        proof {
            table::lemma_changed_all(first, self.records.entries@, f, g);
        }
    }

    /// The requests to be checked, with their conversations.
    pub fn recovery_due(&self, at: u64) -> (r: Vec<(String, String)>)
        ensures
            r@.map_values(|p: (String, String)| (p.0@, p.1@)) == due_pairs(
                self.records.entries@,
                at,
            ),
    {
        let mut out: Vec<(String, String)> = Vec::new();
        let ghost all = self.records.entries@;
        let ghost f = |p: (String, String)| (p.0@, p.1@);
        let mut i: usize = 0;
        assert(all.take(0) == Seq::<(String, Record)>::empty());
        assert(out@.map_values(f) =~= Seq::empty());
        while i < self.records.entries.len()
            invariant
                i <= self.records.entries@.len(),
                all == self.records.entries@,
                f == (|p: (String, String)| (p.0@, p.1@)),
                out@.map_values(f) == due_pairs(all.take(i as int), at),
            decreases self.records.entries@.len() - i,
        {
            assert(all.take(i + 1).drop_last() == all.take(i as int));
            let record = &self.records.entries[i].1;
            let due = is_open(record) && match record.next_check_at {
                Some(next) => next <= at,
                None => false,
            };
            if let Some(key) = &record.conversation {
                if due {
                    let ghost before = out@.map_values(f);
                    out.push((self.records.entries[i].0.clone(), key.clone()));
                    assert(out@.map_values(f) =~= before.push((all[i as int].0@, key@)));
                }
            }
            i += 1;
        }
        assert(all.take(all.len() as int) == all);
        out
    }

    /// How many requests were released without an end, and when the next check is due.
    pub fn recovery_status(&self) -> (r: Json)
        ensures
            r@ == recovery_tree(self.records.entries@),
    {
        let ghost all = self.records.entries@;
        let mut released: u64 = 0;
        let mut next: Option<u64> = None;
        let mut i: usize = 0;
        assert(all.take(0) == Seq::<(String, Record)>::empty());
        while i < self.records.entries.len()
            invariant
                i <= self.records.entries@.len(),
                all == self.records.entries@,
                released == released_count(all.take(i as int)),
                released <= i,
                next == next_check(all.take(i as int)),
            decreases self.records.entries@.len() - i,
        {
            assert(all.take(i + 1).drop_last() == all.take(i as int));
            let record = &self.records.entries[i].1;
            if record.finished_at.is_none() && record.released_at.is_some() {
                released += 1;
            }
            if is_open(record) {
                if let Some(at) = record.next_check_at {
                    next =
                    match next {
                        Some(least) => Some(
                            if least <= at {
                                least
                            } else {
                                at
                            },
                        ),
                        None => Some(at),
                    };
                }
            }
            i += 1;
        }
        assert(all.take(all.len() as int) == all);
        let mut status = Json::object();
        status.set("released_unknown".to_owned(), Json::unsigned(released));
        status.set("next_check_at".to_owned(), optional_json(next));
        status
    }
}

/// How much of a cooldown is left.
pub open spec fn remaining_cooldown(until: Option<u64>, now: u64) -> Option<u128> {
    match until {
        Some(at) => if at > now {
            Some(((at - now) * SECOND) as u128)
        } else {
            None
        },
        None => None,
    }
}

/// The journal with what is known of the account; the end of a cooldown is rounded up.
pub open spec fn account_saved(j: Ledger, throttle: Throttle, instant: u128, now: u64) -> Ledger {
    Ledger {
        cooldown_until: match throttle.until {
            Some(at) => Some(
                clock::later_second(
                    clock::later_second(
                        now,
                        clock::whole_seconds(clock::elapsed(at, instant) as u128),
                    ),
                    1,
                ),
            ),
            None => None,
        },
        account_blocked: throttle.blocked,
        concurrency: throttle.limit,
        ..j
    }
}

/// A restart does not shorten a cooldown: what is left of it by the journal is no less than
/// what was left when it was kept.
pub proof fn law_restart_keeps_cooldown(j: Ledger, throttle: Throttle, instant: u128, now: u64)
    requires
        throttle.until matches Some(until) && now + clock::elapsed(until, instant) / (
        SECOND as int) < u64::MAX,
    ensures
        remaining_cooldown(account_saved(j, throttle, instant, now).cooldown_until, now) matches Some(
            left,
        ) && left >= clock::elapsed(throttle.until->0, instant),
{
    let left = clock::elapsed(throttle.until->0, instant);
    let s = SECOND as int;
    let q = left / s;
    assert(left == q * s + left % s) by (nonlinear_arith)
        requires
            q == left / s,
            s == 1_000_000_000,
    ;
    assert((q + 1) * s == q * s + s) by (nonlinear_arith);
}

/// A request without an acknowledged end is never reported as completed, and a second request
/// under its identifier never starts while it is remembered.
pub proof fn law_unfinished_never_completed(
    m: Map<Seq<char>, Entry>,
    id: Seq<char>,
    fingerprint: Seq<char>,
    now: u64,
)
    requires
        m.contains_key(id),
        m[id].finished_at is None,
    ensures
        refusal(remembered(m, now), id, fingerprint) is Some,
        refusal(remembered(m, now), id, fingerprint) != Some(Rejection::Completed),
{
    assert(remembered(m, now).contains_key(id));
}

/// Releasing a reservation acknowledges nothing: the record stays without an end and asks for
/// no more checks.
pub proof fn law_release_is_no_completion(e: Entry, at: u64, later: u64)
    requires
        e.finished_at is None,
    ensures
        e.checked(true, at).finished_at is None,
        !e.checked(true, at).open(),
        !e.checked(true, at).due(later),
{
}

/// Failed checks follow each other after 10, 20 and 30 seconds in turn.
pub proof fn law_checks_cycle(e: Entry, a: u64, b: u64, c: u64)
    requires
        e.recovery_step % 3 == 0,
        a <= u64::MAX - 30,
        b <= u64::MAX - 30,
        c <= u64::MAX - 30,
    ensures
        e.checked(false, a).next_check_at == Some((a + 20) as u64),
        e.checked(false, a).checked(false, b).next_check_at == Some((b + 30) as u64),
        e.checked(false, a).checked(false, b).checked(false, c).next_check_at == Some(
            (c + 10) as u64,
        ),
        e.checked(false, a).checked(false, b).checked(false, c).recovery_step == 0,
{
}

/// A request that started is refused from then on: in progress where it is the same, a
/// conflict where it is another under the same identifier.
pub proof fn law_start_once(
    m: Map<Seq<char>, Entry>,
    id: Seq<char>,
    fingerprint: Seq<char>,
    conversation: Option<Seq<char>>,
    other: Seq<char>,
    now: u64,
)
    ensures
        refusal(
            remembered(m.insert(id, started(fingerprint, conversation)), now),
            id,
            other,
        ) == Some(
            if other == fingerprint {
                Rejection::Duplicate
            } else {
                Rejection::Conflict
            },
        ),
{
    assert(remembered(m.insert(id, started(fingerprint, conversation)), now).contains_key(id));
}

/// A record is remembered until ten minutes after its request was over, and while it is not for
/// ever; what is remembered is unchanged.
pub proof fn law_how_long_records_are_remembered(
    m: Map<Seq<char>, Entry>,
    now: u64,
    id: Seq<char>,
)
    ensures
        remembered(m, now).contains_key(id) <==> m.contains_key(id) && (m[id].finished_at is None
            || now < m[id].finished_at->0 + 600),
        remembered(m, now).contains_key(id) ==> remembered(m, now)[id] == m[id],
{
}

/// A request whose identifier is recorded is refused: as another one where its fingerprint is not
/// the recorded one, and otherwise by what became of that one: it is over, it was given up, or it
/// is not over. A new one is refused only where 4096 are recorded.
pub proof fn law_what_a_recorded_request_is_told(
    m: Map<Seq<char>, Entry>,
    id: Seq<char>,
    fingerprint: Seq<char>,
)
    ensures
        ({
            let r = refusal(m, id, fingerprint);
            let e = m[id];
            let same = m.contains_key(id) && e.fingerprint == fingerprint;
            &&& r == Some(Rejection::Conflict) <==> m.contains_key(id) && e.fingerprint
                != fingerprint
            &&& r == Some(Rejection::Completed) <==> same && e.finished_at is Some
            &&& r == Some(Rejection::OutcomeUnknown) <==> same && e.finished_at is None
                && e.released_at is Some
            &&& r == Some(Rejection::Duplicate) <==> same && e.finished_at is None && e.released_at
                is None
            &&& r == Some(Rejection::Full) <==> !m.contains_key(id) && m.dom().len() >= 4096
            &&& r is None <==> !m.contains_key(id) && m.dom().len() < 4096
        }),
{
}

/// A request that starts is recorded as one that is not over and waits for no check.
pub proof fn law_what_is_recorded_at_the_start(
    fingerprint: Seq<char>,
    conversation: Option<Seq<char>>,
    now: u64,
)
    ensures
        ({
            let e = started(fingerprint, conversation);
            &&& e.fingerprint == fingerprint && e.conversation == conversation
            &&& e.finished_at is None && e.released_at is None && e.quarantined_at is None
                && e.next_check_at is None && e.recovery_step == 0
            &&& e.open() && !e.due(now) && e.remembered(now)
        }),
{
}

/// Only what ends a request, or gives it up, makes it one that cannot run upstream any more; both
/// keep everything else.
pub proof fn law_when_a_request_is_open(e: Entry, now: u64, released: bool)
    ensures
        e.open() <==> e.finished_at is None && e.released_at is None,
        e.finished(now) == (Entry { finished_at: Some(now), ..e }),
        e.quarantined(now).open() == e.open(),
        e.open() ==> (e.checked(released, now).open() <==> !released),
        released ==> e.checked(released, now) == (Entry {
            released_at: Some(now),
            next_check_at: None,
            ..e
        }),
        e.finished_at is Some ==> e.acknowledged(now) == e,
        e.finished_at is None ==> e.acknowledged(now) == (Entry { finished_at: Some(now), ..e }),
{
}

/// A request that may still run is checked for the first time ten seconds after that was noted;
/// noting it again changes nothing.
pub proof fn law_first_check_after_ten_seconds(e: Entry, now: u64, later: u64)
    ensures
        e.quarantined(now).quarantined(later) == e.quarantined(now),
        e.quarantined_at is None ==> e.quarantined(now).quarantined_at == Some(now),
        e.quarantined_at is Some ==> e.quarantined(now).quarantined_at == e.quarantined_at,
        e.next_check_at is Some ==> e.quarantined(now).next_check_at == e.next_check_at,
        e.next_check_at is None && now + 10 <= u64::MAX ==> e.quarantined(now).next_check_at
            == Some((now + 10) as u64),
        e.quarantined(now) == (Entry {
            quarantined_at: e.quarantined(now).quarantined_at,
            next_check_at: e.quarantined(now).next_check_at,
            ..e
        }),
{
}

/// What a check finds: a request that is released is not checked again; one that is not is
/// checked again after ten, twenty or thirty seconds, one step further each time, and nothing else
/// of it changes.
pub proof fn law_what_a_check_changes(e: Entry, at: u64)
    requires
        at <= u64::MAX - 30,
    ensures
        ({
            let after = e.checked(false, at);
            &&& after == (Entry {
                recovery_step: after.recovery_step,
                next_check_at: after.next_check_at,
                ..e
            })
            &&& e.recovery_step % 3 == 0 ==> after.recovery_step == 1 && after.next_check_at
                == Some((at + 20) as u64)
            &&& e.recovery_step % 3 == 1 ==> after.recovery_step == 2 && after.next_check_at
                == Some((at + 30) as u64)
            &&& e.recovery_step % 3 == 2 ==> after.recovery_step == 0 && after.next_check_at
                == Some((at + 10) as u64)
        }),
{
}

/// A request of an earlier run that is not over and waits for no check is checked after ten
/// seconds; every other record is taken over as it is.
pub proof fn law_what_is_taken_over(e: Entry, now: u64)
    ensures
        e.finished_at is Some || e.released_at is Some || e.next_check_at is Some ==> e.migrated(
            now,
        ) == e,
        e.finished_at is None && e.released_at is None && e.next_check_at is None && now + 10
            <= u64::MAX ==> e.migrated(now).next_check_at == Some((now + 10) as u64)
            && e.migrated(now).open() && e.migrated(now).due((now + 10) as u64),
{
}

/// A record changes only under its own identifier, and none is made or lost by that.
pub proof fn law_only_one_record_changes(
    m: Map<Seq<char>, Entry>,
    id: Seq<char>,
    f: spec_fn(Entry) -> Entry,
    other: Seq<char>,
)
    ensures
        changed(m, id, f).dom() == m.dom(),
        m.contains_key(other) && other != id ==> changed(m, id, f)[other] == m[other],
        m.contains_key(id) ==> changed(m, id, f)[id] == f(m[id]),
{
    assert(changed(m, id, f).dom() =~= m.dom());
}

/// The requests that are checked are exactly those with a conversation that are not over, not
/// given up and due.
pub proof fn law_which_requests_are_checked(records: Seq<(String, Record)>, at: u64)
    ensures
        forall|k: int|
            0 <= k < records.len() && is_checked((#[trigger] records[k]).1, at) ==> due_pairs(
                records,
                at,
            ).contains((records[k].0@, records[k].1.conversation->0@)),
        forall|i: int|
            0 <= i < due_pairs(records, at).len() ==> exists|k: int|
                0 <= k < records.len() && is_checked((#[trigger] records[k]).1, at) && (
                #[trigger] due_pairs(records, at)[i]) == (
                    records[k].0@,
                    records[k].1.conversation->0@,
                ),
    decreases records.len(),
{
    if records.len() > 0 {
        let front = records.drop_last();
        let rest = due_pairs(front, at);
        let all = due_pairs(records, at);
        let end = records.len() - 1;
        law_which_requests_are_checked(front, at);
        assert(records[end] == records.last());
        assert(forall|k: int| 0 <= k < end ==> #[trigger] records[k] == front[k]);
        assert(forall|i: int| 0 <= i < rest.len() ==> #[trigger] all[i] == rest[i]);
        assert forall|k: int| 0 <= k < records.len() && is_checked((#[trigger] records[k]).1, at) implies
            all.contains((records[k].0@, records[k].1.conversation->0@)) by {
            let pair = (records[k].0@, records[k].1.conversation->0@);
            if k < end {
                assert(is_checked(front[k].1, at));
                let i = choose|i: int| 0 <= i < rest.len() && rest[i] == pair;
                assert(all[i] == pair);
            } else {
                assert(all[rest.len() as int] == pair);
            }
        }
        assert forall|i: int| 0 <= i < all.len() implies exists|k: int|
            0 <= k < records.len() && is_checked((#[trigger] records[k]).1, at) && (
            #[trigger] all[i]) == (records[k].0@, records[k].1.conversation->0@) by {
            if i < rest.len() {
                let k = choose|k: int|
                    0 <= k < front.len() && is_checked((#[trigger] front[k]).1, at) && rest[i] == (
                        front[k].0@,
                        front[k].1.conversation->0@,
                    );
                assert(is_checked(records[k].1, at));
            } else {
                assert(is_checked(records[end].1, at));
            }
        }
    }
}

/// A record with a conversation, without an end, not given up and with a check that is due.
pub open spec fn is_checked(r: Record, at: u64) -> bool {
    &&& r.conversation is Some
    &&& r.finished_at is None && r.released_at is None
    &&& r.next_check_at is Some && r.next_check_at->0 <= at
}

/// The conversations that may still run upstream are those of the records that are neither over
/// nor given up.
pub proof fn law_which_conversations_may_run(records: Seq<(String, Record)>, key: Seq<char>)
    ensures
        open_conversations(records).contains(key) <==> exists|k: int|
            0 <= k < records.len() && (#[trigger] records[k]).1.finished_at is None
                && records[k].1.released_at is None && records[k].1.conversation is Some
                && records[k].1.conversation->0@ == key,
    decreases records.len(),
{
    if records.len() > 0 {
        let front = records.drop_last();
        let rest = open_conversations(front);
        let all = open_conversations(records);
        let end = records.len() - 1;
        law_which_conversations_may_run(front, key);
        assert(records[end] == records.last());
        assert(forall|k: int| 0 <= k < end ==> #[trigger] records[k] == front[k]);
        assert(forall|i: int| 0 <= i < rest.len() ==> #[trigger] all[i] == rest[i]);
        if rest.contains(key) {
            let i = choose|i: int| 0 <= i < rest.len() && rest[i] == key;
            assert(all[i] == key);
            let k = choose|k: int|
                0 <= k < front.len() && (#[trigger] front[k]).1.finished_at is None
                    && front[k].1.released_at is None && front[k].1.conversation is Some
                    && front[k].1.conversation->0@ == key;
            assert(records[k].1.finished_at is None);
        } else {
            let last = records.last().1;
            if last.finished_at is None && last.released_at is None && last.conversation is Some
                && last.conversation->0@ == key {
                assert(all[rest.len() as int] == key);
            }
            if all.contains(key) {
                let i = choose|i: int| 0 <= i < all.len() && all[i] == key;
                assert(i == rest.len());
                assert(records[end].1.finished_at is None);
            }
        }
    }
}

/// The next check is the earliest one that a record waits for that is neither over nor given up.
pub proof fn law_next_check_is_the_earliest(records: Seq<(String, Record)>)
    ensures
        next_check(records) matches Some(at) ==> exists|k: int|
            0 <= k < records.len() && (#[trigger] records[k]).1.finished_at is None
                && records[k].1.released_at is None && records[k].1.next_check_at == Some(at),
        forall|k: int|
            0 <= k < records.len() && (#[trigger] records[k]).1.finished_at is None
                && records[k].1.released_at is None && records[k].1.next_check_at is Some ==> (
            next_check(records) matches Some(at) && at <= records[k].1.next_check_at->0),
    decreases records.len(),
{
    if records.len() > 0 {
        let front = records.drop_last();
        let end = records.len() - 1;
        law_next_check_is_the_earliest(front);
        assert(records[end] == records.last());
        assert(forall|k: int| 0 <= k < end ==> #[trigger] records[k] == front[k]);
        if let Some(at) = next_check(front) {
            let k = choose|k: int|
                0 <= k < front.len() && (#[trigger] front[k]).1.finished_at is None
                    && front[k].1.released_at is None && front[k].1.next_check_at == Some(at);
            assert(records[k].1.finished_at is None);
        }
    }
}

/// The summary tells how many records were given up without an end, and when the next check is.
pub proof fn law_summary_of_recovery(records: Seq<(String, Record)>, last: (String, Record))
    requires
        released_count(records) <= u64::MAX,
    ensures
        recovery_tree(records).at("released_unknown"@).number() == Some(
            released_count(records) as u64,
        ),
        recovery_tree(records).at("next_check_at"@).number() == next_check(records),
        released_count(Seq::<(String, Record)>::empty()) == 0,
        released_count(records.push(last)) == released_count(records) + (if last.1.finished_at
            is None && last.1.released_at is Some {
            1int
        } else {
            0int
        }),
{
    reveal_strlit("released_unknown");
    reveal_strlit("next_check_at");
    assert("released_unknown"@.len() == 16 && "next_check_at"@.len() == 13);
    assert(records.push(last).drop_last() =~= records);
}

/// What is known of the account is kept as it is: whether it is blocked, how many requests may
/// run, and the end of a delay, no more than a second late. The records stay.
pub proof fn law_what_is_kept_of_the_account(j: Ledger, throttle: Throttle, instant: u128, now: u64)
    ensures
        ({
            let after = account_saved(j, throttle, instant, now);
            &&& after.records == j.records
            &&& after.account_blocked == throttle.blocked
            &&& after.concurrency == throttle.limit
            &&& after.cooldown_until is Some <==> throttle.until is Some
            &&& throttle.until matches Some(until) ==> (until >= instant ==> (
            after.cooldown_until->0 - now) * 1_000_000_000 <= until - instant + 1_000_000_000)
        }),
{
    if let Some(until) = throttle.until {
        let left = clock::elapsed(until, instant);
        let s = SECOND as int;
        let q = left / s;
        let end = account_saved(j, throttle, instant, now).cooldown_until->0;
        assert(left == q * s + left % s) by (nonlinear_arith)
            requires
                q == left / s,
                s == 1_000_000_000,
        ;
        assert(end - now <= q + 1);
        assert((end - now) * s <= (q + 1) * s) by (nonlinear_arith)
            requires
                end - now <= q + 1,
                s == 1_000_000_000,
        ;
        assert((q + 1) * s == q * s + s) by (nonlinear_arith);
    }
}

/// A delay that was kept lasts until the second in which it ends, and no longer.
pub proof fn law_what_is_left_of_a_delay(until: Option<u64>, now: u64)
    ensures
        ({
            let left = remaining_cooldown(until, now);
            &&& left is Some <==> until is Some && now < until->0
            &&& left matches Some(time) ==> now * 1_000_000_000 + time == until->0 * 1_000_000_000
        }),
{
    if let Some(at) = until {
        if at > now {
            let d: int = at - now;
            assert(d * 1_000_000_000 == at * 1_000_000_000 - now * 1_000_000_000);
        }
    }
}

/// A journal of an earlier run is taken over from a file of four mebibytes at most, with 4096
/// records at most.
pub proof fn law_which_journals_are_taken_over(size: u64, records: nat)
    ensures
        is_restorable(size, records) <==> size <= 4_194_304 && records <= 4096,
{
}

} // verus!
