//! Ownership of references that were observed in upstream output, for each caller and account.
//! Only digests are kept; what a request holds never makes it an owner.
use crate::digest;
use crate::digest::digest_pair;
use crate::digest::digest_triple;
use crate::json;
use crate::json::Json;
use crate::json::Tree;
use crate::rejection::Rejection;
use crate::scheduler;
use crate::scheduler::Key;
use crate::table;
use crate::table::Table;
use crate::text;
use crate::text::list_contains;
use crate::text::same;
use vstd::prelude::*;
use vstd::utf8::*;

verus! {

broadcast use {
    vstd::seq_lib::group_seq_properties,
    vstd::map::group_map_axioms,
    vstd::set::group_set_axioms,
};

/// How many references are remembered.
pub const MAX_RECORDS: usize = 16384;

/// The largest file with remembered references, in bytes.
pub const MAX_BYTES: u64 = 16_777_216;

/// How many references of one request or event count.
pub const MAX_REFERENCES: usize = 4096;

/// How long a reference is remembered, in seconds.
pub const RETENTION: u64 = 2_592_000;

/// What is remembered of a reference.
#[derive(Debug)]
pub struct Record {
    pub conversation: String,
    pub binding: String,
    pub observed_at: u64,
    pub ambiguous: bool,
}

/// The model of a `Record`.
pub struct Seen {
    pub conversation: Seq<char>,
    pub binding: Seq<char>,
    pub observed_at: u64,
    pub ambiguous: bool,
}

impl View for Record {
    type V = Seen;

    open spec fn view(&self) -> Seen {
        Seen {
            conversation: self.conversation@,
            binding: self.binding@,
            observed_at: self.observed_at,
            ambiguous: self.ambiguous,
        }
    }
}

#[derive(Debug)]
pub struct Index {
    pub records: Table<String, Record>,
    /// Whether the records changed since they were last saved.
    pub dirty: bool,
}

/// The model of an `Index`.
pub struct Sightings {
    pub records: Map<Seq<char>, Seen>,
    pub dirty: bool,
}

pub open spec fn seen_view(m: Map<Seq<char>, Record>) -> Map<Seq<char>, Seen> {
    m.map_values(|r: Record| r@)
}

impl View for Index {
    type V = Sightings;

    open spec fn view(&self) -> Sightings {
        Sightings { records: seen_view(self.records@), dirty: self.dirty }
    }
}

/// The reference that a text is, if it is one.
pub open spec fn reference_of(kind: Seq<char>, value: Tree) -> Seq<Seq<char>> {
    match value.text() {
        Some(s) => if s.len() > 0 {
            seq![digest::pair_digest(kind, s)]
        } else {
            Seq::empty()
        },
        None => Seq::empty(),
    }
}

/// Whether an item comes from a caller.
pub open spec fn from_caller(item: Tree) -> bool {
    item.says("role"@, "user"@) || item.says("role"@, "system"@) || item.says(
        "role"@,
        "developer"@,
    )
}

/// The references that an item holds.
pub open spec fn item_references(item: Tree) -> Seq<Seq<char>> {
    if from_caller(item) {
        Seq::empty()
    } else {
        reference_of("id"@, item.at("id"@)) + reference_of(
            "encrypted_content"@,
            item.at("encrypted_content"@),
        ) + reference_of("encrypted_function_args"@, item.at("encrypted_function_args"@))
            + reference_of("call_id"@, item.at("call_id"@))
    }
}

/// The references that a list of items holds.
pub open spec fn items_references(items: Seq<Tree>) -> Seq<Seq<char>>
    decreases items.len(),
{
    if items.len() == 0 {
        Seq::empty()
    } else {
        items_references(items.drop_last()) + item_references(items.last())
    }
}

/// The references at a member that is a list of items.
pub open spec fn list_references(t: Tree, key: Seq<char>) -> Seq<Seq<char>> {
    match t.at(key).items() {
        Some(items) => items_references(items),
        None => Seq::empty(),
    }
}

/// The references that a request makes.
pub open spec fn request_references(body: Tree) -> Seq<Seq<char>> {
    reference_of("response"@, body.at("previous_response_id"@)) + list_references(body, "input"@)
}

/// The part of an event that describes the response.
pub open spec fn described(event: Tree) -> Tree {
    match event.field("response"@) {
        Some(response) => response,
        None => event,
    }
}

/// Whether an event announces an output item.
pub open spec fn announces_item(event: Tree) -> bool {
    event.says("type"@, "response.output_item.added"@) || event.says(
        "type"@,
        "response.output_item.done"@,
    )
}

/// The references that an event hands out.
pub open spec fn event_references(event: Tree) -> Seq<Seq<char>> {
    reference_of("response"@, described(event).at("id"@)) + (if announces_item(event) {
        item_references(event.at("item"@))
    } else {
        Seq::empty()
    }) + list_references(described(event), "output"@)
}

/// The digest under which a reference is kept for a caller and an account.
pub open spec fn scope(principal: Seq<char>, account: Seq<char>, reference: Seq<char>) -> Seq<
    char,
> {
    digest::digest_of(digest::triple(principal, account, reference))
}

/// A list without what occurred before.
pub open spec fn distinct(list: Seq<Seq<char>>) -> Seq<Seq<char>>
    decreases list.len(),
{
    if list.len() == 0 {
        Seq::empty()
    } else {
        let rest = distinct(list.drop_last());
        if rest.contains(list.last()) {
            rest
        } else {
            rest.push(list.last())
        }
    }
}

pub open spec fn fresh(s: Seen, now: u64) -> bool {
    now < s.observed_at || now - s.observed_at < RETENTION
}

/// The conversation that owns every reference of a list.
pub open spec fn owner(
    m: Map<Seq<char>, Seen>,
    principal: Seq<char>,
    account: Seq<char>,
    references: Seq<Seq<char>>,
    now: u64,
) -> Result<Option<Seq<char>>, Rejection>
    decreases references.len(),
{
    if references.len() == 0 {
        Ok(None)
    } else {
        match owner(m, principal, account, references.drop_last(), now) {
            Err(e) => Err(e),
            Ok(conversation) => {
                let scoped = scope(principal, account, references.last());
                if !m.contains_key(scoped) || !fresh(m[scoped], now) {
                    Err(Rejection::BindingLost)
                } else if m[scoped].ambiguous || (conversation is Some && conversation != Some(
                    m[scoped].conversation,
                )) {
                    Err(Rejection::ContinuationConflict)
                } else {
                    Ok(Some(m[scoped].conversation))
                }
            },
        }
    }
}

/// The conversation that a request continues.
pub open spec fn resolution(
    m: Map<Seq<char>, Seen>,
    principal: Seq<char>,
    account: Seq<char>,
    body: Tree,
    now: u64,
) -> Result<Option<Seq<char>>, Rejection> {
    let references = distinct(request_references(body));
    if references.len() > MAX_REFERENCES {
        Err(Rejection::TooLarge)
    } else {
        owner(m, principal, account, references, now)
    }
}

pub open spec fn owner_view(r: Result<Option<String>, Rejection>) -> Result<
    Option<Seq<char>>,
    Rejection,
> {
    match r {
        Ok(s) => Ok(text::text_option(s)),
        Err(e) => Err(e),
    }
}

/// Whether some references in a file of some bytes are taken over.
pub open spec fn is_restorable(size: u64, records: nat) -> bool {
    size <= MAX_BYTES && records <= MAX_RECORDS
}

pub open spec fn age_rank() -> spec_fn(Seq<char>, Seen) -> Option<u128> {
    |k: Seq<char>, s: Seen| Some(s.observed_at as u128)
}

/// A reference that a conversation was handed.
pub open spec fn sighting(key: (Seq<char>, Seq<char>), now: u64) -> Seen {
    Seen {
        conversation: key.1,
        binding: scheduler::conversation_digest(key),
        observed_at: now,
        ambiguous: false,
    }
}

/// What a reference that was handed to a conversation does to the index: a new one is kept,
/// in place of the oldest where there is no room; one that another conversation was handed is
/// ambiguous from then on.
pub open spec fn noted(
    s: Sightings,
    scoped: Seq<char>,
    key: (Seq<char>, Seq<char>),
    now: u64,
    after: Sightings,
) -> bool {
    if s.records.contains_key(scoped) {
        let old = s.records[scoped];
        if old.conversation != key.1 && !old.ambiguous {
            after == (Sightings {
                records: s.records.insert(
                    scoped,
                    Seen { ambiguous: true, observed_at: now, ..old },
                ),
                dirty: true,
            })
        } else {
            after == s
        }
    } else if s.records.dom().len() == MAX_RECORDS {
        exists|oldest: Seq<char>| #[trigger]
            table::is_least(s.records, age_rank(), oldest) && after == (Sightings {
                records: s.records.remove(oldest).insert(scoped, sighting(key, now)),
                dirty: true,
            })
    } else {
        after == (Sightings {
            records: s.records.insert(scoped, sighting(key, now)),
            dirty: true,
        })
    }
}

/// What references that were handed to a conversation do to the index, one after the other.
pub open spec fn noted_all(
    s: Sightings,
    account: Seq<char>,
    key: (Seq<char>, Seq<char>),
    references: Seq<Seq<char>>,
    now: u64,
    after: Sightings,
) -> bool
    decreases references.len(),
{
    if references.len() == 0 {
        after == s
    } else {
        exists|middle: Sightings|
            {
                &&& #[trigger] noted(
                    middle,
                    scope(key.0, account, references.last()),
                    key,
                    now,
                    after,
                )
                &&& noted_all(s, account, key, references.drop_last(), now, middle)
            }
    }
}

/// The first of the references that count.
pub open spec fn counted(list: Seq<Seq<char>>) -> Seq<Seq<char>> {
    if list.len() > MAX_REFERENCES {
        list.take(MAX_REFERENCES as int)
    } else {
        list
    }
}

fn push_reference(out: &mut Vec<String>, kind: &str, value: Option<&Json>)
    ensures
        text::texts(final(out)@) == text::texts(old(out)@) + (match value {
            Some(j) => reference_of(kind@, j@),
            None => Seq::empty(),
        }),
{
    if let Some(j) = value {
        if let Some(s) = j.as_text() {
            if !s.as_str().is_empty() {
                out.push(digest_pair(kind, s));
                assert(text::texts(out@) =~= text::texts(old(out)@).push(
                    digest::pair_digest(kind@, s@),
                ));
            }
        }
    }
}

fn push_item(out: &mut Vec<String>, item: &Json)
    ensures
        text::texts(final(out)@) == text::texts(old(out)@) + item_references(item@),
{
    if item.says("role", "user") || item.says("role", "system") || item.says("role", "developer") {
        return;
    }
    push_reference(out, "id", item.get("id"));
    push_reference(out, "encrypted_content", item.get("encrypted_content"));
    push_reference(out, "encrypted_function_args", item.get("encrypted_function_args"));
    push_reference(out, "call_id", item.get("call_id"));
}

fn push_items(out: &mut Vec<String>, items: &Vec<Json>)
    ensures
        text::texts(final(out)@) == text::texts(old(out)@) + items_references(
            json::trees_of(items@),
        ),
{
    let ghost start = text::texts(out@);
    let ghost trees = json::trees_of(items@);
    let mut i: usize = 0;
    proof {
        json::lemma_trees_of(items@);
        assert(trees.take(0) =~= Seq::empty());
    }
    while i < items.len()
        invariant
            i <= items@.len(),
            trees == json::trees_of(items@),
            trees.len() == items@.len(),
            forall|k: int| 0 <= k < items@.len() ==> #[trigger] trees[k] == json::tree_of(
                items@[k],
            ),
            text::texts(out@) == start + items_references(trees.take(i as int)),
        decreases items@.len() - i,
    {
        assert(trees.take(i + 1).drop_last() == trees.take(i as int));
        assert(trees[i as int] == items@[i as int]@);
        push_item(out, &items[i]);
        i += 1;
    }
    assert(trees.take(trees.len() as int) == trees);
}

/// The references that a request makes.
fn references_in_request(body: &Json) -> (r: Vec<String>)
    ensures
        text::texts(r@) == request_references(body@),
{
    let mut out: Vec<String> = Vec::new();
    assert(text::texts(out@) =~= Seq::empty());
    push_reference(&mut out, "response", body.get("previous_response_id"));
    if let Some(items) = body.items_at("input") {
        push_items(&mut out, items);
    }
    out
}

/// The references that an event hands out.
fn references_in_event(event: &Json) -> (r: Vec<String>)
    ensures
        text::texts(r@) == event_references(event@),
{
    let mut out: Vec<String> = Vec::new();
    assert(text::texts(out@) =~= Seq::empty());
    let response = match event.get("response") {
        Some(response) => response,
        None => event,
    };
    push_reference(&mut out, "response", response.get("id"));
    if event.says("type", "response.output_item.added") || event.says(
        "type",
        "response.output_item.done",
    ) {
        match event.get("item") {
            Some(item) => push_item(&mut out, item),
            None => {
                assert(item_references(Tree::Null) =~= Seq::empty());
            },
        }
    }
    if let Some(items) = response.items_at("output") {
        push_items(&mut out, items);
    }
    out
}

/// A list without what occurred before; nothing where too much is left.
fn dedupe(list: &Vec<String>) -> (r: Option<Vec<String>>)
    ensures
        r is Some <==> distinct(text::texts(list@)).len() <= MAX_REFERENCES,
        r matches Some(out) ==> text::texts(out@) == distinct(text::texts(list@)),
{
    let ghost all = text::texts(list@);
    let mut out: Vec<String> = Vec::new();
    let mut i: usize = 0;
    assert(all.take(0) =~= Seq::empty());
    assert(text::texts(out@) =~= Seq::empty());
    while i < list.len()
        invariant
            i <= list@.len(),
            all == text::texts(list@),
            out@.len() <= MAX_REFERENCES,
            text::texts(out@) == distinct(all.take(i as int)),
        decreases list@.len() - i,
    {
        assert(all.take(i + 1).drop_last() == all.take(i as int));
        if !list_contains(&out, &list[i]) {
            let ghost before = text::texts(out@);
            out.push(list[i].clone());
            assert(text::texts(out@) =~= before.push(all[i as int]));
            if out.len() > MAX_REFERENCES {
                proof {
                    lemma_distinct_grows(all, i + 1);
                }
                return None;
            }
        }
        i += 1;
    }
    assert(all.take(all.len() as int) == all);
    Some(out)
}

proof fn lemma_distinct_grows(list: Seq<Seq<char>>, n: int)
    requires
        0 <= n <= list.len(),
    ensures
        distinct(list.take(n)).len() <= distinct(list).len(),
    decreases list.len(),
{
    if n < list.len() {
        lemma_distinct_grows(list.drop_last(), n);
        assert(list.drop_last().take(n) == list.take(n));
    } else {
        assert(list.take(n) == list);
    }
}

impl Index {
    pub open spec fn wf(&self) -> bool {
        self.records.wf()
    }

    pub fn new() -> (r: Index)
        ensures
            r.wf(),
            r@ == (Sightings { records: Map::empty(), dirty: false }),
    {
        let r = Index { records: Table::new(), dirty: false };
        assert(r@.records =~= Map::empty());
        r
    }

    /// Takes over the references of an earlier run from a file of `size` bytes; nothing where
    /// there is too much.
    pub fn restore(records: Table<String, Record>, size: u64) -> (r: Option<Index>)
        requires
            records.wf(),
        ensures
            r is Some <==> is_restorable(size, records@.dom().len()),
            r matches Some(index) ==> index.wf() && index@ == (Sightings {
                records: seen_view(records@),
                dirty: false,
            }),
    {
        if size > MAX_BYTES || records.len() > MAX_RECORDS {
            None
        } else {
            Some(Index { records, dirty: false })
        }
    }

    /// The conversation that a request of a caller continues: none where it makes no reference,
    /// an error where a reference is unknown or the references do not agree.
    pub fn resolve(&self, principal: &str, account: &str, body: &Json, now: u64) -> (r: Result<
        Option<String>,
        Rejection,
    >)
        requires
            self.wf(),
        ensures
            owner_view(r) == resolution(self@.records, principal@, account@, body@, now),
    {
        let references = match dedupe(&references_in_request(body)) {
            Some(list) => list,
            None => return Err(Rejection::TooLarge),
        };
        let ghost all = text::texts(references@);
        let ghost m = self@.records;
        let mut conversation: Option<String> = None;
        let mut i: usize = 0;
        assert(all.take(0) =~= Seq::empty());
        while i < references.len()
            invariant
                i <= references@.len(),
                self.wf(),
                m == self@.records,
                all == text::texts(references@),
                all == distinct(request_references(body@)),
                all.len() <= MAX_REFERENCES,
                owner(m, principal@, account@, all.take(i as int), now) == Ok::<
                    Option<Seq<char>>,
                    Rejection,
                >(text::text_option(conversation)),
            decreases references@.len() - i,
        {
            assert(all.take(i + 1).drop_last() == all.take(i as int));
            proof {
                lemma_owner_stops(m, principal@, account@, all, i + 1, now);
            }
            let scoped = digest_triple(principal, account, &references[i]);
            let record = match self.records.get(&scoped) {
                Some(record) => record,
                None => return Err(Rejection::BindingLost),
            };
            if now >= record.observed_at && now - record.observed_at >= RETENTION {
                return Err(Rejection::BindingLost);
            }
            let other = match &conversation {
                Some(key) => !same(key, &record.conversation),
                None => false,
            };
            if record.ambiguous || other {
                return Err(Rejection::ContinuationConflict);
            }
            conversation = Some(record.conversation.clone());
            i += 1;
        }
        assert(all.take(all.len() as int) == all);
        Ok(conversation)
    }

    /// Forgets the references of conversations that are gone, but not that a reference is
    /// ambiguous, and those that are too old.
    pub fn retain_bindings(&mut self, bindings: &Vec<String>, now: u64)
        requires
            old(self).wf(),
        ensures
            final(self).wf(),
            final(self)@ == retained(old(self)@, text::texts(bindings@), now),
    {
        let ghost p = |k: Seq<char>, r: Record| lasting(r@, text::texts(bindings@), now);
        let test = |k: &String, r: &Record| -> (keep: bool)
            ensures
                keep == lasting(r@, text::texts(bindings@), now),
            {
                (r.ambiguous || list_contains(bindings, &r.binding)) && (now < r.observed_at || now
                    - r.observed_at < RETENTION)
            };
        proof {
            table::lemma_mapped_kept(
                self.records@,
                |r: Record| r@,
                p,
                |k: Seq<char>, s: Seen| lasting(s, text::texts(bindings@), now),
            );
        }
        self.records.retain(test, Ghost(p));
        self.dirty = true;
    }

    /// Notes the references that an event hands to a conversation.
    pub fn observe(&mut self, account: &str, key: &Key, event: &Json, now: u64)
        requires
            old(self).wf(),
        ensures
            final(self).wf(),
            noted_all(
                old(self)@,
                account@,
                key@,
                counted(event_references(event@)),
                now,
                final(self)@,
            ),
    {
        let references = references_in_event(event);
        let count: usize = if references.len() > MAX_REFERENCES {
            MAX_REFERENCES
        } else {
            references.len()
        };
        let ghost all = text::texts(references@);
        let ghost start = self@;
        let mut i: usize = 0;
        assert(all.take(0) =~= Seq::empty());
        while i < count
            invariant
                i <= count <= references@.len(),
                start == old(self)@,
                self.wf(),
                all == text::texts(references@),
                noted_all(start, account@, key@, all.take(i as int), now, self@),
            decreases count - i,
        {
            let ghost middle = self@;
            let scoped = digest_triple(&key.0, account, &references[i]);
            self.note(scoped, key, now);
            proof {
                lemma_noted_one_more(start, account@, key@, all, i as int, now, middle, self@);
            }
            i += 1;
        }
        assert(all.take(all.len() as int) == all);
    }

    fn note(&mut self, scoped: String, key: &Key, now: u64)
        requires
            old(self).wf(),
        ensures
            final(self).wf(),
            noted(old(self)@, scoped@, key@, now, final(self)@),
    {
        let ghost before = self.records@;
        let ghost f = |r: Record| r@;
        assert(self@.records.dom() =~= before.dom());
        if self.records.has(&scoped) {
            let mut changed = false;
            if let Some(record) = self.records.get_mut(&scoped) {
                if !same(&record.conversation, &key.1) && !record.ambiguous {
                    record.ambiguous = true;
                    record.observed_at = now;
                    changed = true;
                }
                proof {
                    table::lemma_mapped_insert(before, f, scoped@, *record);
                    if !changed {
                        assert(before.insert(scoped@, *record) =~= before);
                    }
                }
            }
            if changed {
                self.dirty = true;
            }
            return;
        }
        if self.records.len() == MAX_RECORDS {
            let ghost rank = |k: Seq<char>, r: Record| (age_rank())(k, r@);
            let test = |k: &String, r: &Record| -> (at: Option<u128>)
                ensures
                    at == Some(r.observed_at as u128),
                { Some(r.observed_at as u128) };
            let oldest = self.records.least(test, Ghost(rank));
            if let Some(i) = oldest {
                let ghost k = self.records.entries@[i as int].0@;
                proof {
                    lemma_oldest_view(before, k);
                    table::lemma_mapped_remove(before, f, k);
                }
                let _ = self.records.remove_at(i);
            } else {
                proof {
                    table::lemma_map_of(self.records.entries@);
                    assert(before.contains_key(self.records.entries@[0].0@));
                }
            }
        }
        let record = Record {
            conversation: key.1.clone(),
            binding: key.digest(),
            observed_at: now,
            ambiguous: false,
        };
        proof {
            table::lemma_mapped_insert(self.records@, f, scoped@, record);
        }
        self.records.insert(scoped, record);
        self.dirty = true;
    }
}

proof fn lemma_noted_one_more(
    s: Sightings,
    account: Seq<char>,
    key: (Seq<char>, Seq<char>),
    references: Seq<Seq<char>>,
    n: int,
    now: u64,
    middle: Sightings,
    after: Sightings,
)
    requires
        0 <= n < references.len(),
        noted_all(s, account, key, references.take(n), now, middle),
        noted(middle, scope(key.0, account, references[n]), key, now, after),
    ensures
        noted_all(s, account, key, references.take(n + 1), now, after),
{
    let more = references.take(n + 1);
    assert(more.drop_last() == references.take(n));
    assert(more.last() == references[n]);
    assert(noted(middle, scope(key.0, account, more.last()), key, now, after));
}

proof fn lemma_oldest_view(raw: Map<Seq<char>, Record>, k: Seq<char>)
    requires
        table::is_least(raw, |k: Seq<char>, r: Record| (age_rank())(k, r@), k),
    ensures
        table::is_least(seen_view(raw), age_rank(), k),
{
    let m = seen_view(raw);
    assert forall|other: Seq<char>| #[trigger] m.contains_key(other) implies ((age_rank())(
        other,
        m[other],
    ) matches Some(at) ==> (age_rank())(k, m[k])->0 <= at) by {
        assert(raw.contains_key(other));
    }
}

/// An error at some references stays the result for more of them.
proof fn lemma_owner_stops(
    m: Map<Seq<char>, Seen>,
    principal: Seq<char>,
    account: Seq<char>,
    references: Seq<Seq<char>>,
    n: int,
    now: u64,
)
    requires
        0 <= n <= references.len(),
    ensures
        owner(m, principal, account, references.take(n), now) is Err ==> owner(
            m,
            principal,
            account,
            references,
            now,
        ) == owner(m, principal, account, references.take(n), now),
    decreases references.len(),
{
    if n < references.len() {
        lemma_owner_stops(m, principal, account, references.drop_last(), n, now);
        assert(references.drop_last().take(n) == references.take(n));
    } else {
        assert(references.take(n) == references);
    }
}

/// Whether a reference is still kept.
pub open spec fn lasting(s: Seen, bindings: Seq<Seq<char>>, now: u64) -> bool {
    (s.ambiguous || bindings.contains(s.binding)) && fresh(s, now)
}

pub open spec fn retained(s: Sightings, bindings: Seq<Seq<char>>, now: u64) -> Sightings {
    Sightings {
        records: table::kept(s.records, |k: Seq<char>, seen: Seen| lasting(seen, bindings, now)),
        dirty: true,
    }
}

/// References are kept apart by caller and by account: what is digested for one of them is
/// never what is digested for another.
pub proof fn law_scopes_are_apart(
    principal: Seq<char>,
    account: Seq<char>,
    reference: Seq<char>,
    principal2: Seq<char>,
    account2: Seq<char>,
    reference2: Seq<char>,
)
    requires
        digest::framable(digest::triple(principal, account, reference)),
        digest::framable(digest::triple(principal2, account2, reference2)),
        digest::framed(digest::triple(principal, account, reference)) == digest::framed(
            digest::triple(principal2, account2, reference2),
        ),
    ensures
        principal == principal2,
        account == account2,
        reference == reference2,
{
    let a = digest::triple(principal, account, reference);
    let b = digest::triple(principal2, account2, reference2);
    digest::law_framing_injective(a, b);
    assert(a[0] == b[0] && a[1] == b[1] && a[2] == b[2]);
    digest::lemma_encoding_injective(principal, principal2);
    digest::lemma_encoding_injective(account, account2);
    digest::lemma_encoding_injective(reference, reference2);
}

/// A reference that was handed to a conversation leads back to it, unless another conversation
/// was handed it too: then it is in conflict.
pub proof fn law_observed_reference_resolves(
    s: Sightings,
    account: Seq<char>,
    key: (Seq<char>, Seq<char>),
    reference: Seq<char>,
    now: u64,
    after: Sightings,
)
    requires
        noted(s, scope(key.0, account, reference), key, now, after),
        s.records.contains_key(scope(key.0, account, reference)) ==> fresh(
            s.records[scope(key.0, account, reference)],
            now,
        ),
    ensures
        ({
            let scoped = scope(key.0, account, reference);
            let result = owner(after.records, key.0, account, seq![reference], now);
            if s.records.contains_key(scoped) && (s.records[scoped].ambiguous
                || s.records[scoped].conversation != key.1) {
                result == Err::<Option<Seq<char>>, Rejection>(Rejection::ContinuationConflict)
            } else {
                result == Ok::<Option<Seq<char>>, Rejection>(Some(key.1))
            }
        }),
{
    let one = seq![reference];
    assert(one.drop_last() =~= Seq::empty());
    assert(one.last() == reference);
    reveal_with_fuel(owner, 3);
}

/// What is ambiguous stays so for as long as it is kept, whatever is handed out later and
/// whichever conversations are gone.
pub proof fn law_ambiguity_stays(
    s: Sightings,
    scoped: Seq<char>,
    key: (Seq<char>, Seq<char>),
    now: u64,
    after: Sightings,
    bindings: Seq<Seq<char>>,
    other: Seq<char>,
)
    requires
        noted(s, scoped, key, now, after),
        s.records.contains_key(other),
        s.records[other].ambiguous,
    ensures
        after.records.contains_key(other) ==> after.records[other].ambiguous,
        retained(s, bindings, now).records.contains_key(other) <==> fresh(s.records[other], now),
{
}

/// A reference that nothing was ever handed is refused: a request cannot make itself an owner.
pub proof fn law_unknown_reference_is_lost(
    m: Map<Seq<char>, Seen>,
    principal: Seq<char>,
    account: Seq<char>,
    references: Seq<Seq<char>>,
    now: u64,
    i: int,
)
    requires
        0 <= i < references.len(),
        !m.contains_key(scope(principal, account, references[i])) || !fresh(
            m[scope(principal, account, references[i])],
            now,
        ),
    ensures
        owner(m, principal, account, references, now) is Err,
    decreases references.len(),
{
    if i < references.len() - 1 {
        law_unknown_reference_is_lost(m, principal, account, references.drop_last(), now, i);
    }
}

/// No more references are kept than there is room for.
pub proof fn law_index_is_bounded(
    s: Sightings,
    scoped: Seq<char>,
    key: (Seq<char>, Seq<char>),
    now: u64,
    after: Sightings,
)
    requires
        noted(s, scoped, key, now, after),
        s.records.dom().finite(),
        s.records.dom().len() <= MAX_RECORDS,
    ensures
        after.records.dom().finite(),
        after.records.dom().len() <= MAX_RECORDS,
{
    if s.records.contains_key(scoped) {
        assert(after.records.dom() =~= s.records.dom());
    } else if s.records.dom().len() == MAX_RECORDS {
        let oldest = choose|oldest: Seq<char>| #[trigger]
            table::is_least(s.records, age_rank(), oldest) && after == (Sightings {
                records: s.records.remove(oldest).insert(scoped, sighting(key, now)),
                dirty: true,
            });
        assert(after.records.dom() =~= s.records.dom().remove(oldest).insert(scoped));
    } else {
        assert(after.records.dom() =~= s.records.dom().insert(scoped));
    }
}

/// A reference is a text that is not empty, of some kind: its digest with the kind.
pub open spec fn refers(kind: Seq<char>, value: Tree, reference: Seq<char>) -> bool {
    value is Text && value->Text_0.len() > 0 && reference == digest::pair_digest(
        kind,
        value->Text_0,
    )
}

/// An item that does not come from a user, the system or a developer refers by its identifier, its
/// sealed content, its sealed arguments and the call that it is of; one that does by nothing.
pub open spec fn item_refers(item: Tree, reference: Seq<char>) -> bool {
    &&& item.at("role"@) != Tree::Text("user"@)
    &&& item.at("role"@) != Tree::Text("system"@)
    &&& item.at("role"@) != Tree::Text("developer"@)
    &&& {
        ||| refers("id"@, item.at("id"@), reference)
        ||| refers("encrypted_content"@, item.at("encrypted_content"@), reference)
        ||| refers("encrypted_function_args"@, item.at("encrypted_function_args"@), reference)
        ||| refers("call_id"@, item.at("call_id"@), reference)
    }
}

/// A list, where it is one, has an item with a reference.
pub open spec fn list_refers(list: Tree, reference: Seq<char>) -> bool {
    list matches Tree::Array(items) && exists|i: int|
        0 <= i < items.len() && item_refers(#[trigger] items[i], reference)
}

proof fn lemma_joined(a: Seq<Seq<char>>, b: Seq<Seq<char>>, s: Seq<char>)
    ensures
        (a + b).contains(s) <==> a.contains(s) || b.contains(s),
{
    let all = a + b;
    if a.contains(s) {
        let i = choose|i: int| 0 <= i < a.len() && a[i] == s;
        assert(all[i] == s);
    }
    if b.contains(s) {
        let i = choose|i: int| 0 <= i < b.len() && b[i] == s;
        assert(all[a.len() + i] == s);
    }
    if all.contains(s) {
        let i = choose|i: int| 0 <= i < all.len() && all[i] == s;
        if i < a.len() {
            assert(a[i] == s);
        } else {
            assert(b[i - a.len()] == s);
        }
    }
}

proof fn lemma_refers(kind: Seq<char>, value: Tree, s: Seq<char>)
    ensures
        reference_of(kind, value).contains(s) <==> refers(kind, value, s),
{
    if refers(kind, value, s) {
        assert(reference_of(kind, value)[0] == s);
    }
}

proof fn lemma_item_refers(item: Tree, s: Seq<char>)
    ensures
        item_references(item).contains(s) <==> item_refers(item, s),
{
    let a = reference_of("id"@, item.at("id"@));
    let b = reference_of("encrypted_content"@, item.at("encrypted_content"@));
    let c = reference_of("encrypted_function_args"@, item.at("encrypted_function_args"@));
    let d = reference_of("call_id"@, item.at("call_id"@));
    lemma_refers("id"@, item.at("id"@), s);
    lemma_refers("encrypted_content"@, item.at("encrypted_content"@), s);
    lemma_refers("encrypted_function_args"@, item.at("encrypted_function_args"@), s);
    lemma_refers("call_id"@, item.at("call_id"@), s);
    lemma_joined(a, b, s);
    lemma_joined(a + b, c, s);
    lemma_joined(a + b + c, d, s);
    assert(!Seq::<Seq<char>>::empty().contains(s));
}

proof fn lemma_items_refer(items: Seq<Tree>, s: Seq<char>)
    ensures
        items_references(items).contains(s) <==> exists|i: int|
            0 <= i < items.len() && item_refers(#[trigger] items[i], s),
    decreases items.len(),
{
    if items.len() > 0 {
        let front = items.drop_last();
        let end = items.len() - 1;
        lemma_items_refer(front, s);
        lemma_item_refers(items.last(), s);
        lemma_joined(items_references(front), item_references(items.last()), s);
        assert(items[end] == items.last());
        if exists|i: int| 0 <= i < front.len() && item_refers(#[trigger] front[i], s) {
            let i = choose|i: int| 0 <= i < front.len() && item_refers(#[trigger] front[i], s);
            assert(item_refers(items[i], s));
        }
        if exists|i: int| 0 <= i < items.len() && item_refers(#[trigger] items[i], s) {
            let i = choose|i: int| 0 <= i < items.len() && item_refers(#[trigger] items[i], s);
            if i < end {
                assert(item_refers(front[i], s));
            }
        }
    } else {
        assert(!Seq::<Seq<char>>::empty().contains(s));
    }
}

proof fn lemma_list_refers(t: Tree, key: Seq<char>, s: Seq<char>)
    ensures
        list_references(t, key).contains(s) <==> list_refers(t.at(key), s),
{
    match t.at(key) {
        Tree::Array(items) => lemma_items_refer(items, s),
        _ => {
            assert(!Seq::<Seq<char>>::empty().contains(s));
        },
    }
}

/// A request refers to the response that it continues, and to what the items of its input refer
/// to, and to nothing else.
pub proof fn law_what_a_request_refers_to(body: Tree, s: Seq<char>)
    ensures
        request_references(body).contains(s) <==> refers(
            "response"@,
            body.at("previous_response_id"@),
            s,
        ) || list_refers(body.at("input"@), s),
{
    lemma_refers("response"@, body.at("previous_response_id"@), s);
    lemma_list_refers(body, "input"@, s);
    lemma_joined(
        reference_of("response"@, body.at("previous_response_id"@)),
        list_references(body, "input"@),
        s,
    );
}

/// An event hands out the identifier of the response, what the item that it says is added or done
/// refers to, and what the response's output does. It is the response itself where it holds none.
pub proof fn law_what_an_event_hands_out(event: Tree, s: Seq<char>)
    ensures
        ({
            let inner = event matches Tree::Object(m) && m.contains_key("response"@);
            let response = if inner {
                event.at("response"@)
            } else {
                event
            };
            let announced = event.at("type"@) == Tree::Text("response.output_item.added"@)
                || event.at("type"@) == Tree::Text("response.output_item.done"@);
            event_references(event).contains(s) <==> refers("response"@, response.at("id"@), s) || (
            announced && item_refers(event.at("item"@), s)) || list_refers(
                response.at("output"@),
                s,
            )
        }),
{
    let response = described(event);
    let a = reference_of("response"@, response.at("id"@));
    let b = if announces_item(event) {
        item_references(event.at("item"@))
    } else {
        Seq::empty()
    };
    let c = list_references(response, "output"@);
    lemma_refers("response"@, response.at("id"@), s);
    lemma_item_refers(event.at("item"@), s);
    lemma_list_refers(response, "output"@, s);
    lemma_joined(a, b, s);
    lemma_joined(a + b, c, s);
    assert(!Seq::<Seq<char>>::empty().contains(s));
}

/// Each reference of a request counts once, and none is left out.
pub proof fn law_references_count_once(list: Seq<Seq<char>>, s: Seq<char>)
    ensures
        distinct(list).no_duplicates(),
        distinct(list).contains(s) <==> list.contains(s),
    decreases list.len(),
{
    if list.len() > 0 {
        let front = list.drop_last();
        let rest = distinct(front);
        let last = list.last();
        law_references_count_once(front, s);
        law_references_count_once(front, last);
        lemma_joined(front, seq![last], s);
        assert(front + seq![last] =~= list);
        assert(seq![last].contains(s) <==> s == last) by {
            assert(seq![last][0] == last);
        }
        if !rest.contains(last) {
            lemma_joined(rest, seq![last], s);
            assert(rest + seq![last] =~= rest.push(last));
        }
    } else {
        assert(!Seq::<Seq<char>>::empty().contains(s));
        assert(!list.contains(s));
    }
}

/// A reference leads to a conversation: it is known to the caller and the account, was seen within
/// the last thirty days, and was handed to that conversation alone.
pub open spec fn leads_to(
    m: Map<Seq<char>, Seen>,
    principal: Seq<char>,
    account: Seq<char>,
    reference: Seq<char>,
    now: u64,
    conversation: Seq<char>,
) -> bool {
    let scoped = digest::digest_of(digest::triple(principal, account, reference));
    &&& m.contains_key(scoped)
    &&& now < m[scoped].observed_at + 2_592_000
    &&& !m[scoped].ambiguous
    &&& m[scoped].conversation == conversation
}

/// References lead to a conversation exactly where each of them does; none lead to none. Where all
/// are known but do not agree that is a conflict.
pub proof fn law_where_references_lead(
    m: Map<Seq<char>, Seen>,
    principal: Seq<char>,
    account: Seq<char>,
    references: Seq<Seq<char>>,
    now: u64,
    conversation: Seq<char>,
)
    ensures
        ({
            let r = owner(m, principal, account, references, now);
            &&& r == Ok::<Option<Seq<char>>, Rejection>(None) <==> references.len() == 0
            &&& r == Ok::<Option<Seq<char>>, Rejection>(Some(conversation)) <==> references.len()
                > 0 && forall|i: int|
                0 <= i < references.len() ==> leads_to(
                    m,
                    principal,
                    account,
                    #[trigger] references[i],
                    now,
                    conversation,
                )
            &&& r matches Err(e) ==> e == Rejection::BindingLost || e
                == Rejection::ContinuationConflict
            &&& r is Err && (forall|i: int|
                0 <= i < references.len() ==> is_fresh_in(
                    m,
                    principal,
                    account,
                    #[trigger] references[i],
                    now,
                )) ==> r->Err_0 == Rejection::ContinuationConflict
        }),
    decreases references.len(),
{
    if references.len() > 0 {
        let front = references.drop_last();
        let end = references.len() - 1;
        law_where_references_lead(m, principal, account, front, now, conversation);
        let r = owner(m, principal, account, references, now);
        let before = owner(m, principal, account, front, now);
        assert(references[end] == references.last());
        assert(forall|i: int| 0 <= i < end ==> #[trigger] references[i] == front[i]);
        if forall|i: int|
            0 <= i < references.len() ==> leads_to(
                m,
                principal,
                account,
                #[trigger] references[i],
                now,
                conversation,
            ) {
            assert forall|i: int| 0 <= i < front.len() implies leads_to(
                m,
                principal,
                account,
                #[trigger] front[i],
                now,
                conversation,
            ) by {
                assert(leads_to(m, principal, account, references[i], now, conversation));
            }
            assert(leads_to(m, principal, account, references[end], now, conversation));
        }
        if r == Ok::<Option<Seq<char>>, Rejection>(Some(conversation)) {
            assert forall|i: int| 0 <= i < references.len() implies leads_to(
                m,
                principal,
                account,
                #[trigger] references[i],
                now,
                conversation,
            ) by {
                if i < end {
                    assert(leads_to(m, principal, account, front[i], now, conversation));
                }
            }
        }
        if forall|i: int|
            0 <= i < references.len() ==> is_fresh_in(
                m,
                principal,
                account,
                #[trigger] references[i],
                now,
            ) {
            assert forall|i: int| 0 <= i < front.len() implies is_fresh_in(
                m,
                principal,
                account,
                #[trigger] front[i],
                now,
            ) by {
                assert(is_fresh_in(m, principal, account, references[i], now));
            }
            assert(is_fresh_in(m, principal, account, references[end], now));
        }
    }
}

/// A reference is known to the caller and the account and was seen within the last thirty days.
pub open spec fn is_fresh_in(
    m: Map<Seq<char>, Seen>,
    principal: Seq<char>,
    account: Seq<char>,
    reference: Seq<char>,
    now: u64,
) -> bool {
    let scoped = digest::digest_of(digest::triple(principal, account, reference));
    m.contains_key(scoped) && now < m[scoped].observed_at + 2_592_000
}

/// A request with more than 4096 references is too large; any other continues the conversation
/// that its references lead to.
pub proof fn law_what_a_request_continues(
    m: Map<Seq<char>, Seen>,
    principal: Seq<char>,
    account: Seq<char>,
    body: Tree,
    now: u64,
)
    ensures
        ({
            let references = distinct(request_references(body));
            let r = resolution(m, principal, account, body, now);
            &&& references.len() > 4096 ==> r == Err::<Option<Seq<char>>, Rejection>(
                Rejection::TooLarge,
            )
            &&& references.len() <= 4096 ==> r == owner(m, principal, account, references, now)
        }),
{
}

/// A reference that is new is kept for the conversation, up to 16384 of them, where it takes the
/// place of one that no other was seen before. One that another conversation was handed is in
/// conflict from then on; one that the same was handed stays as it is. All others stay.
pub proof fn law_what_is_kept_of_a_reference(
    s: Sightings,
    scoped: Seq<char>,
    key: (Seq<char>, Seq<char>),
    now: u64,
    after: Sightings,
    other: Seq<char>,
    third: Seq<char>,
)
    requires
        noted(s, scoped, key, now, after),
    ensures
        after.records.contains_key(scoped),
        s.records.contains_key(scoped) ==> {
            let old = s.records[scoped];
            let clash = old.conversation != key.1 && !old.ambiguous;
            &&& clash ==> after.records[scoped] == (Seen {
                ambiguous: true,
                observed_at: now,
                ..old
            })
            &&& !clash ==> after.records[scoped] == old && after.dirty == s.dirty
        },
        !s.records.contains_key(scoped) ==> after.dirty && after.records[scoped] == (Seen {
            conversation: key.1,
            binding: digest::pair_digest(key.0, key.1),
            observed_at: now,
            ambiguous: false,
        }),
        other != scoped && after.records.contains_key(other) ==> s.records.contains_key(other)
            && after.records[other] == s.records[other],
        s.records.contains_key(other) && !after.records.contains_key(other) ==> {
            &&& !s.records.contains_key(scoped) && s.records.dom().len() == 16384
            &&& s.records.contains_key(third) ==> s.records[other].observed_at
                <= s.records[third].observed_at
        },
{
    if !s.records.contains_key(scoped) && s.records.dom().len() == MAX_RECORDS {
        let oldest = choose|oldest: Seq<char>| #[trigger]
            table::is_least(s.records, age_rank(), oldest) && after == (Sightings {
                records: s.records.remove(oldest).insert(scoped, sighting(key, now)),
                dirty: true,
            });
        assert(table::is_least(s.records, age_rank(), oldest));
    }
}

/// References count up to the 4096th of an event.
pub proof fn law_how_many_references_count(list: Seq<Seq<char>>)
    ensures
        counted(list).is_prefix_of(list),
        list.len() <= 4096 ==> counted(list) == list,
        list.len() > 4096 ==> counted(list).len() == 4096,
{
}

/// References are taken in one after the other.
pub proof fn law_references_are_taken_in_order(
    s: Sightings,
    account: Seq<char>,
    key: (Seq<char>, Seq<char>),
    reference: Seq<char>,
    now: u64,
    after: Sightings,
)
    ensures
        noted_all(s, account, key, Seq::empty(), now, after) <==> after == s,
        noted_all(s, account, key, seq![reference], now, after) <==> noted(
            s,
            digest::digest_of(digest::triple(key.0, account, reference)),
            key,
            now,
            after,
        ),
{
    let one = seq![reference];
    assert(one.last() == reference);
    assert(one.drop_last() =~= Seq::empty());
    let scoped = scope(key.0, account, reference);
    if noted(s, scoped, key, now, after) {
        assert(noted(s, scope(key.0, account, one.last()), key, now, after));
        assert(noted_all(s, account, key, one.drop_last(), now, s));
    }
    if noted_all(s, account, key, one, now, after) {
        let middle = choose|middle: Sightings|
            {
                &&& #[trigger] noted(
                    middle,
                    scope(key.0, account, one.last()),
                    key,
                    now,
                    after,
                )
                &&& noted_all(s, account, key, one.drop_last(), now, middle)
            };
        assert(middle == s);
    }
}

/// A reference is kept for thirty days while its conversation is remembered; one that is in
/// conflict is kept that long in any case.
pub proof fn law_how_long_references_are_kept(
    s: Sightings,
    bindings: Seq<Seq<char>>,
    now: u64,
    scoped: Seq<char>,
)
    ensures
        retained(s, bindings, now).records.contains_key(scoped) <==> s.records.contains_key(scoped)
            && now < s.records[scoped].observed_at + 2_592_000 && (s.records[scoped].ambiguous
            || bindings.contains(s.records[scoped].binding)),
        retained(s, bindings, now).records.contains_key(scoped) ==> retained(
            s,
            bindings,
            now,
        ).records[scoped] == s.records[scoped],
{
}

/// References of an earlier run are taken over from a file of 16 mebibytes at most, 16384 of them
/// at most.
pub proof fn law_which_references_are_taken_over(size: u64, records: nat)
    ensures
        is_restorable(size, records) <==> size <= 16_777_216 && records <= 16384,
{
}

} // verus!
