//! Bounded, process-local metrics and request bodies; HTTP headers are kept apart.
use crate::json;
use crate::json::parse_json;
use crate::json::push_json;
use crate::json::text_json;
use crate::json::Json;
use crate::json::Quantity;
use crate::json::Tree;
use crate::quota::copy_list;
use crate::table;
use crate::table::Table;
use crate::text;
use crate::text::byte_len;
use crate::text::copy_option;
use crate::text::number_text;
use crate::text::trim;
use vstd::prelude::*;
use vstd::utf8::*;

verus! {

broadcast use {
    vstd::seq_lib::group_seq_properties,
    vstd::map::group_map_axioms,
    vstd::set::group_set_axioms,
};

/// How many requests are remembered.
pub const RECENT_LIMIT: usize = 100;

/// How much of a request body is remembered, in bytes.
pub const BODY_LIMIT: usize = 65536;

/// The longest name of a model, in bytes.
pub const MODEL_LIMIT: usize = 128;

/// The text that `String::from_utf8_lossy` makes of bytes.
pub uninterp spec fn lossy_text(bytes: Seq<u8>) -> Seq<char>;

/// `String::from_utf8_lossy`: the text that the bytes encode; where they are no valid UTF-8 it
/// still depends on them alone.
#[verifier::external_body]
pub(crate) fn lossy(bytes: &[u8]) -> (r: String)
    ensures
        r@ == lossy_text(bytes@),
        valid_utf8(bytes@) ==> r@ == decode_utf8(bytes@),
{
    String::from_utf8_lossy(bytes).into_owned()
}

/// What is remembered of a request.
#[derive(Debug)]
pub struct Sample {
    pub id: u64,
    pub body: Option<String>,
    pub body_truncated: bool,
    pub client_headers: Vec<Json>,
    pub upstream: Option<Json>,
    pub completed_at: u64,
    pub status: u16,
    /// In nanoseconds.
    pub duration: u128,
    pub transport_error: bool,
}

/// The model of a `Sample`.
pub struct Trace {
    pub id: u64,
    pub body: Option<Seq<char>>,
    pub body_truncated: bool,
    pub client_headers: Seq<Tree>,
    pub upstream: Option<Tree>,
    pub completed_at: u64,
    pub status: u16,
    pub duration: u128,
    pub transport_error: bool,
}

impl View for Sample {
    type V = Trace;

    open spec fn view(&self) -> Trace {
        Trace {
            id: self.id,
            body: text::text_option(self.body),
            body_truncated: self.body_truncated,
            client_headers: json::trees_of(self.client_headers@),
            upstream: json::tree_option(self.upstream),
            completed_at: self.completed_at,
            status: self.status,
            duration: self.duration,
            transport_error: self.transport_error,
        }
    }
}

#[derive(Debug)]
pub struct Metrics {
    pub started_at: u64,
    pub total: u64,
    pub completed: u64,
    pub transport_errors: u64,
    pub status_counts: Table<String, u64>,
    pub model_counts: Table<String, u64>,
    pub total_duration: u128,
    pub max_duration: u128,
    /// The last requests, the latest first.
    pub recent: Vec<Sample>,
}

/// The model of a `Metrics`.
pub struct Tally {
    pub started_at: u64,
    pub total: u64,
    pub completed: u64,
    pub transport_errors: u64,
    pub status_counts: Map<Seq<char>, u64>,
    pub model_counts: Map<Seq<char>, u64>,
    pub total_duration: u128,
    pub max_duration: u128,
    pub recent: Seq<Trace>,
}

pub open spec fn traces(list: Seq<Sample>) -> Seq<Trace> {
    list.map_values(|s: Sample| s@)
}

impl View for Metrics {
    type V = Tally;

    open spec fn view(&self) -> Tally {
        Tally {
            started_at: self.started_at,
            total: self.total,
            completed: self.completed,
            transport_errors: self.transport_errors,
            status_counts: self.status_counts@,
            model_counts: self.model_counts@,
            total_duration: self.total_duration,
            max_duration: self.max_duration,
            recent: traces(self.recent@),
        }
    }
}

/// A request that is under way.
#[derive(Debug)]
pub struct Completion {
    pub id: u64,
    pub body: Option<String>,
    pub body_truncated: bool,
    pub client_headers: Vec<Json>,
    pub upstream: Option<Json>,
    pub started: u128,
    pub status: u16,
    pub delivered: bool,
    pub model: Option<String>,
}

/// The model in a request body.
pub open spec fn model_in(body: Seq<u8>) -> Option<Seq<char>> {
    match json::json_document(body) {
        None => None,
        Some(t) => match t.text_at("model"@) {
            Some(s) => if 1 <= text::byte_length(text::trimmed(s)) <= MODEL_LIMIT {
                Some(text::trimmed(s))
            } else {
                None
            },
            None => None,
        },
    }
}

/// The model in a request body.
pub fn model_from_json(body: &[u8]) -> (r: Option<String>)
    ensures
        text::text_option(r) == model_in(body@),
{
    match parse_json(body) {
        None => None,
        Some(t) => match t.text_at("model") {
            Some(s) => {
                let model = trim(s);
                let n = byte_len(&model);
                if 1 <= n && n <= MODEL_LIMIT {
                    Some(model)
                } else {
                    None
                }
            },
            None => None,
        },
    }
}

/// The first bytes of a body.
pub open spec fn cut_body(body: Seq<u8>) -> Seq<u8> {
    if body.len() > BODY_LIMIT {
        body.take(BODY_LIMIT as int)
    } else {
        body
    }
}

impl Completion {
    /// Remembers a request's body, as far as it is not too long, and its model.
    pub fn capture(&mut self, body: &[u8])
        ensures
            final(self).body matches Some(s) && s@ == lossy_text(cut_body(body@)),
            final(self).body_truncated == (body@.len() > BODY_LIMIT),
            text::text_option(final(self).model) == model_in(body@),
            final(self).id == old(self).id,
            final(self).client_headers == old(self).client_headers,
            final(self).upstream == old(self).upstream,
            final(self).started == old(self).started,
            final(self).status == old(self).status,
            final(self).delivered == old(self).delivered,
    {
        self.body_truncated = body.len() > BODY_LIMIT;
        let kept: &[u8] = if body.len() > BODY_LIMIT {
            vstd::slice::slice_subrange(body, 0, BODY_LIMIT)
        } else {
            body
        };
        assert(kept@ =~= cut_body(body@));
        self.body = Some(lossy(kept));
        self.model = model_from_json(body);
    }

    /// Takes over the model of what was sent upstream, where it can be told.
    pub fn capture_upstream_model(&mut self, upstream: &Json)
        ensures
            text::text_option(final(self).model) == (match upstream@.text_at("body"@) {
                Some(s) => match model_in(encode_utf8(s)) {
                    Some(model) => Some(model),
                    None => text::text_option(old(self).model),
                },
                None => text::text_option(old(self).model),
            }),
            final(self).id == old(self).id,
            final(self).body == old(self).body,
            final(self).body_truncated == old(self).body_truncated,
            final(self).client_headers == old(self).client_headers,
            final(self).upstream == old(self).upstream,
            final(self).started == old(self).started,
            final(self).status == old(self).status,
            final(self).delivered == old(self).delivered,
    {
        if let Some(body) = upstream.text_at("body") {
            if let Some(model) = model_from_json(body.as_str().as_bytes()) {
                self.model = Some(model);
            }
        }
    }
}

/// One more in a count.
pub open spec fn counted(m: Map<Seq<char>, u64>, key: Seq<char>) -> Map<Seq<char>, u64> {
    m.insert(
        key,
        if m.contains_key(key) {
            (m[key] + 1) as u64
        } else {
            1
        },
    )
}

fn count(t: &mut Table<String, u64>, key: String, Ghost(bound): Ghost<u64>)
    requires
        old(t).wf(),
        bound < u64::MAX,
        forall|k: Seq<char>| #[trigger] old(t)@.contains_key(k) ==> old(t)@[k] <= bound,
    ensures
        final(t).wf(),
        final(t)@ == counted(old(t)@, key@),
        forall|k: Seq<char>| #[trigger] final(t)@.contains_key(k) ==> final(t)@[k] <= bound + 1,
{
    let n: u64 = match t.get(&key) {
        Some(n) => *n + 1,
        None => 1,
    };
    t.insert(key, n);
}

pub open spec fn added(a: u128, b: u128) -> u128 {
    if a + b <= u128::MAX {
        (a + b) as u128
    } else {
        u128::MAX
    }
}

/// The metrics after one more request was started.
pub open spec fn one_more(m: Tally) -> Tally {
    Tally { total: (m.total + 1) as u64, ..m }
}

/// What is remembered of a request that is over.
pub open spec fn trace_of(c: Completion, duration: u128, now: u64) -> Trace {
    Trace {
        id: c.id,
        body: text::text_option(c.body),
        body_truncated: c.body_truncated,
        client_headers: json::trees_of(c.client_headers@),
        upstream: json::tree_option(c.upstream),
        completed_at: now,
        status: c.status,
        duration,
        transport_error: !c.delivered,
    }
}

/// The latest requests with one more.
pub open spec fn remembered(recent: Seq<Trace>, t: Trace) -> Seq<Trace> {
    seq![t] + (if recent.len() == RECENT_LIMIT {
        recent.drop_last()
    } else {
        recent
    })
}

/// The metrics after a request is over.
pub open spec fn completed(m: Tally, c: Completion, duration: u128, now: u64) -> Tally {
    Tally {
        completed: (m.completed + 1) as u64,
        transport_errors: if c.delivered {
            m.transport_errors
        } else {
            (m.transport_errors + 1) as u64
        },
        status_counts: counted(m.status_counts, text::decimal(c.status as nat)),
        model_counts: match c.model {
            Some(model) => counted(m.model_counts, model@),
            None => m.model_counts,
        },
        total_duration: added(m.total_duration, duration),
        max_duration: if duration > m.max_duration {
            duration
        } else {
            m.max_duration
        },
        recent: remembered(m.recent, trace_of(c, duration, now)),
        ..m
    }
}

/// Durations as they are shown: numbers of milliseconds.
#[derive(Debug)]
pub struct Times {
    pub average: Json,
    pub max: Json,
    /// One for each of the last requests.
    pub recent: Vec<Json>,
}

pub open spec fn counts_tree(m: Map<Seq<char>, u64>) -> Tree {
    Tree::Object(m.map_values(|n: u64| Tree::Number(Quantity::Unsigned(n))))
}

/// A request as it is listed: without its body and its headers.
pub open spec fn listed(t: Trace, time: Tree) -> Map<Seq<char>, Tree> {
    Map::empty().insert("id"@, Tree::Number(Quantity::Unsigned(t.id))).insert(
        "body_truncated"@,
        Tree::Bool(t.body_truncated),
    ).insert("completed_at"@, Tree::Number(Quantity::Unsigned(t.completed_at))).insert(
        "status"@,
        Tree::Number(Quantity::Unsigned(t.status as u64)),
    ).insert("duration_ms"@, time).insert("transport_error"@, Tree::Bool(t.transport_error))
}

/// A request in all detail.
pub open spec fn detailed(t: Trace, time: Tree) -> Tree {
    Tree::Object(
        listed(t, time).insert("body"@, json::optional_text(t.body)).insert(
            "client_headers"@,
            Tree::Array(t.client_headers),
        ).insert(
            "upstream"@,
            match t.upstream {
                Some(u) => u,
                None => Tree::Null,
            },
        ),
    )
}

pub open spec fn listed_all(recent: Seq<Trace>, times: Seq<Tree>) -> Seq<Tree> {
    Seq::new(recent.len(), |i: int| Tree::Object(listed(recent[i], times[i])))
}

pub open spec fn snapshot_tree(m: Tally, average: Tree, max: Tree, times: Seq<Tree>) -> Tree {
    Tree::Object(
        Map::empty().insert("started_at"@, Tree::Number(Quantity::Unsigned(m.started_at))).insert(
            "total"@,
            Tree::Number(Quantity::Unsigned(m.total)),
        ).insert("completed"@, Tree::Number(Quantity::Unsigned(m.completed))).insert(
            "in_flight"@,
            Tree::Number(Quantity::Unsigned((m.total - m.completed) as u64)),
        ).insert(
            "transport_errors"@,
            Tree::Number(Quantity::Unsigned(m.transport_errors)),
        ).insert("status_counts"@, counts_tree(m.status_counts)).insert(
            "model_counts"@,
            counts_tree(m.model_counts),
        ).insert("average_duration_ms"@, average).insert("max_duration_ms"@, max).insert(
            "recent"@,
            Tree::Array(listed_all(m.recent, times)),
        ),
    )
}

fn listed_json(s: &Sample, time: Json) -> (r: Json)
    ensures
        r@ == Tree::Object(listed(s@, time@)),
{
    let mut r = Json::object();
    r.set("id".to_owned(), Json::unsigned(s.id));
    r.set("body_truncated".to_owned(), Json::Bool(s.body_truncated));
    r.set("completed_at".to_owned(), Json::unsigned(s.completed_at));
    r.set("status".to_owned(), Json::unsigned(s.status as u64));
    r.set("duration_ms".to_owned(), time);
    r.set("transport_error".to_owned(), Json::Bool(s.transport_error));
    r
}

fn counts_json(t: &Table<String, u64>) -> (r: Json)
    requires
        t.wf(),
    ensures
        r@ == counts_tree(t@),
{
    let ghost all = t.entries@;
    let ghost f = |n: u64| Tree::Number(Quantity::Unsigned(n));
    let mut r = Json::object();
    let mut i: usize = 0;
    assert(all.take(0) =~= Seq::empty());
    assert(table::map_of(all.take(0)).map_values(f) =~= Map::empty());
    while i < t.entries.len()
        invariant
            i <= t.entries@.len(),
            all == t.entries@,
            f == (|n: u64| Tree::Number(Quantity::Unsigned(n))),
            r@ == Tree::Object(table::map_of(all.take(i as int)).map_values(f)),
        decreases t.entries@.len() - i,
    {
        proof {
            assert(all.take(i + 1).drop_last() == all.take(i as int));
            table::lemma_mapped_insert(
                table::map_of(all.take(i as int)),
                f,
                all[i as int].0@,
                all[i as int].1,
            );
        }
        r.set(t.entries[i].0.clone(), Json::unsigned(t.entries[i].1));
        i += 1;
    }
    assert(all.take(all.len() as int) == all);
    r
}

/// The position of the first request with an identifier.
pub open spec fn trace_position(list: Seq<Trace>, id: u64) -> Option<int>
    decreases list.len(),
{
    if list.len() == 0 {
        None
    } else {
        match trace_position(list.drop_last(), id) {
            Some(i) => Some(i),
            None => if list.last().id == id {
                Some(list.len() - 1)
            } else {
                None
            },
        }
    }
}

impl Metrics {
    /// No more requests are over than were started, and no count is above that of those that
    /// are over.
    pub open spec fn wf(&self) -> bool {
        &&& self.status_counts.wf()
        &&& self.model_counts.wf()
        &&& self.completed <= self.total
        &&& self.transport_errors <= self.completed
        &&& forall|k: Seq<char>| #[trigger]
            self.status_counts@.contains_key(k) ==> self.status_counts@[k] <= self.completed
        &&& forall|k: Seq<char>| #[trigger]
            self.model_counts@.contains_key(k) ==> self.model_counts@[k] <= self.completed
    }

    pub fn new(started_at: u64) -> (r: Metrics)
        ensures
            r.wf(),
            r@ == (Tally {
                started_at,
                total: 0,
                completed: 0,
                transport_errors: 0,
                status_counts: Map::empty(),
                model_counts: Map::empty(),
                total_duration: 0,
                max_duration: 0,
                recent: Seq::empty(),
            }),
    {
        let r = Metrics {
            started_at,
            total: 0,
            completed: 0,
            transport_errors: 0,
            status_counts: Table::new(),
            model_counts: Table::new(),
            total_duration: 0,
            max_duration: 0,
            recent: Vec::new(),
        };
        assert(r@.recent =~= Seq::empty());
        r
    }

    /// Starts a request; until it is known how it ends it counts as failed.
    pub fn start(&mut self, started: u128) -> (r: Completion)
        requires
            old(self).wf(),
            old(self).total < u64::MAX,
        ensures
            final(self).wf(),
            final(self)@ == one_more(old(self)@),
            r.id == final(self)@.total,
            r.started == started,
            r.status == 500,
            !r.delivered,
            !r.body_truncated,
            r.body is None,
            r.model is None,
            r.upstream is None,
            r.client_headers@.len() == 0,
    {
        self.total += 1;
        Completion {
            id: self.total,
            body: None,
            body_truncated: false,
            client_headers: Vec::new(),
            upstream: None,
            started,
            status: 500,
            delivered: false,
            model: None,
        }
    }

    /// Ends a request at an instant and a second of the wall clock.
    pub fn finish(&mut self, c: Completion, instant: u128, now: u64)
        requires
            old(self).wf(),
            old(self).completed < old(self).total,
        ensures
            final(self).wf(),
            final(self)@ == completed(
                old(self)@,
                c,
                crate::clock::elapsed(instant, c.started) as u128,
                now,
            ),
    {
        let ghost before = self@;
        let duration = crate::clock::since(instant, c.started);
        let ghost bound = self.completed;
        count(&mut self.status_counts, number_text(c.status as u64), Ghost(bound));
        if let Some(model) = &c.model {
            count(&mut self.model_counts, model.clone(), Ghost(bound));
        }
        self.completed += 1;
        if !c.delivered {
            self.transport_errors += 1;
        }
        self.total_duration = self.total_duration.saturating_add(duration);
        if duration > self.max_duration {
            self.max_duration = duration;
        }
        if self.recent.len() == RECENT_LIMIT {
            let ghost list = self.recent@;
            let _ = self.recent.pop();
            assert(traces(self.recent@) =~= traces(list).drop_last());
        }
        let ghost rest = traces(self.recent@);
        let ghost t = trace_of(c, duration, now);
        let sample = Sample {
            id: c.id,
            body: c.body,
            body_truncated: c.body_truncated,
            client_headers: c.client_headers,
            upstream: c.upstream,
            completed_at: now,
            status: c.status,
            duration,
            transport_error: !c.delivered,
        };
        assert(sample@ == t);
        self.recent.insert(0, sample);
        assert(traces(self.recent@) =~= seq![t] + rest);
    }

    /// The position of a remembered request.
    pub fn find(&self, id: u64) -> (r: Option<usize>)
        ensures
            r is Some <==> trace_position(self@.recent, id) is Some,
            r matches Some(i) ==> i < self.recent@.len() && trace_position(self@.recent, id)
                == Some(i as int),
    {
        let ghost all = self@.recent;
        let mut found: Option<usize> = None;
        let mut i: usize = 0;
        assert(all.take(0) =~= Seq::empty());
        while i < self.recent.len()
            invariant
                i <= self.recent@.len(),
                all == self@.recent,
                found is Some <==> trace_position(all.take(i as int), id) is Some,
                found matches Some(k) ==> k < i && trace_position(all.take(i as int), id) == Some(
                    k as int,
                ),
            decreases self.recent@.len() - i,
        {
            assert(all.take(i + 1).drop_last() == all.take(i as int));
            assert(all.take(i + 1).last() == self.recent@[i as int]@);
            if found.is_none() && self.recent[i].id == id {
                found = Some(i);
            }
            i += 1;
        }
        assert(all.take(all.len() as int) == all);
        found
    }

    /// A remembered request in all detail; `time` is its duration as it is shown.
    pub fn detail(&self, id: u64, time: Json) -> (r: Option<Json>)
        ensures
            match trace_position(self@.recent, id) {
                Some(i) => r matches Some(j) && j@ == detailed(self@.recent[i], time@),
                None => r is None,
            },
    {
        match self.find(id) {
            None => None,
            Some(i) => {
                let s = &self.recent[i];
                assert(self@.recent[i as int] == s@);
                let mut r = listed_json(s, time);
                r.set("body".to_owned(), text_json(copy_option(&s.body)));
                r.set("client_headers".to_owned(), Json::Array(copy_list(&s.client_headers)));
                let upstream = match &s.upstream {
                    Some(u) => u.copy(),
                    None => Json::Null,
                };
                r.set("upstream".to_owned(), upstream);
                Some(r)
            },
        }
    }

    /// A summary; the durations are given as they are shown.
    pub fn snapshot(&self, times: &Times) -> (r: Json)
        requires
            self.wf(),
            times.recent@.len() == self.recent@.len(),
        ensures
            r@ == snapshot_tree(
                self@,
                times.average@,
                times.max@,
                json::trees_of(times.recent@),
            ),
    {
        let ghost shown = json::trees_of(times.recent@);
        let ghost target = listed_all(self@.recent, shown);
        let mut recent: Vec<Json> = Vec::new();
        let mut i: usize = 0;
        proof {
            json::lemma_trees_of(times.recent@);
            assert(json::trees_of(recent@) =~= target.take(0));
        }
        while i < self.recent.len()
            invariant
                i <= self.recent@.len(),
                times.recent@.len() == self.recent@.len(),
                shown == json::trees_of(times.recent@),
                shown.len() == times.recent@.len(),
                forall|k: int| 0 <= k < shown.len() ==> #[trigger] shown[k] == json::tree_of(
                    times.recent@[k],
                ),
                target == listed_all(self@.recent, shown),
                json::trees_of(recent@) == target.take(i as int),
            decreases self.recent@.len() - i,
        {
            assert(self@.recent[i as int] == self.recent@[i as int]@);
            assert(shown[i as int] == times.recent@[i as int]@);
            push_json(&mut recent, listed_json(&self.recent[i], times.recent[i].copy()));
            assert(target.take(i + 1) =~= target.take(i as int).push(target[i as int]));
            i += 1;
        }
        assert(target.take(target.len() as int) =~= target);
        let mut r = Json::object();
        r.set("started_at".to_owned(), Json::unsigned(self.started_at));
        r.set("total".to_owned(), Json::unsigned(self.total));
        r.set("completed".to_owned(), Json::unsigned(self.completed));
        r.set("in_flight".to_owned(), Json::unsigned(self.total - self.completed));
        r.set("transport_errors".to_owned(), Json::unsigned(self.transport_errors));
        r.set("status_counts".to_owned(), counts_json(&self.status_counts));
        r.set("model_counts".to_owned(), counts_json(&self.model_counts));
        r.set("average_duration_ms".to_owned(), times.average.copy());
        r.set("max_duration_ms".to_owned(), times.max.copy());
        r.set("recent".to_owned(), Json::Array(recent));
        r
    }
}

/// No more requests are remembered than may be, and the latest is remembered first.
pub proof fn law_recent_is_bounded(m: Tally, c: Completion, duration: u128, now: u64)
    requires
        m.recent.len() <= RECENT_LIMIT,
    ensures
        completed(m, c, duration, now).recent.len() <= RECENT_LIMIT,
        completed(m, c, duration, now).recent[0] == trace_of(c, duration, now),
        completed(m, c, duration, now).recent.len() >= m.recent.len(),
{
}

/// A list of requests never holds a body or headers.
pub proof fn law_bodies_are_not_listed(t: Trace, time: Tree)
    ensures
        !listed(t, time).contains_key("body"@),
        !listed(t, time).contains_key("client_headers"@),
        !listed(t, time).contains_key("upstream"@),
{
    reveal_strlit("id");
    reveal_strlit("body_truncated");
    reveal_strlit("completed_at");
    reveal_strlit("status");
    reveal_strlit("duration_ms");
    reveal_strlit("transport_error");
    reveal_strlit("body");
    reveal_strlit("client_headers");
    reveal_strlit("upstream");
    assert("body"@.len() == 4);
    assert("upstream"@.len() == 8);
    assert("client_headers"@.len() == 14);
    assert("body_truncated"@.len() == 14);
    assert("client_headers"@[0] != "body_truncated"@[0]);
}

/// The model of a request is the one that its body names, without white space around it, where
/// that has 1 to 128 bytes.
pub proof fn law_which_model_is_counted(body: Seq<u8>, t: Tree)
    ensures
        json::json_document(body) is None ==> model_in(body) is None,
        json::json_document(body) == Some(t) ==> {
            let name = text::trimmed(t.at("model"@)->Text_0);
            let good = t.at("model"@) is Text && 1 <= encode_utf8(name).len() <= 128;
            &&& good ==> model_in(body) == Some(name)
            &&& !good ==> model_in(body) is None
        },
{
}

/// Of a body the first 64 kibibytes are remembered.
pub proof fn law_how_much_of_a_body_is_remembered(body: Seq<u8>)
    ensures
        cut_body(body).is_prefix_of(body),
        body.len() <= 65_536 ==> cut_body(body) == body,
        body.len() > 65_536 ==> cut_body(body).len() == 65_536,
{
}

/// One more is counted under its own name, from one on, and under no other.
pub proof fn law_counting(m: Map<Seq<char>, u64>, key: Seq<char>, other: Seq<char>)
    requires
        m.contains_key(key) ==> m[key] < u64::MAX,
    ensures
        counted(m, key).contains_key(key),
        m.contains_key(key) ==> counted(m, key)[key] == m[key] + 1,
        !m.contains_key(key) ==> counted(m, key)[key] == 1,
        other != key ==> (counted(m, key).contains_key(other) <==> m.contains_key(other)) && (
        m.contains_key(other) ==> counted(m, key)[other] == m[other]),
{
}

/// A request that is over is counted once: by its status, by its model where that is known, and as
/// an error of the transport where its answer was not delivered. Its duration is added, and the
/// longest is kept. How many were started, and since when, stays.
pub proof fn law_what_is_counted_of_a_request(
    m: Tally,
    c: Completion,
    duration: u128,
    now: u64,
    other: Seq<char>,
)
    requires
        m.completed < u64::MAX,
        m.transport_errors < u64::MAX,
        m.total_duration + duration <= u128::MAX,
    ensures
        ({
            let after = completed(m, c, duration, now);
            let status = text::decimal(c.status as nat);
            &&& after.total == m.total && after.started_at == m.started_at
            &&& after.completed == m.completed + 1
            &&& c.delivered ==> after.transport_errors == m.transport_errors
            &&& !c.delivered ==> after.transport_errors == m.transport_errors + 1
            &&& after.total_duration == m.total_duration + duration
            &&& after.max_duration >= duration && after.max_duration >= m.max_duration
            &&& after.max_duration == duration || after.max_duration == m.max_duration
            &&& after.status_counts == counted(m.status_counts, status)
            &&& c.model is None ==> after.model_counts == m.model_counts
            &&& c.model matches Some(model) ==> after.model_counts == counted(
                m.model_counts,
                model@,
            )
        }),
{
}

/// The hundred latest requests are remembered, the latest first and the others behind it in their
/// order: each with its number, its status, its time and whether its answer was delivered.
pub proof fn law_which_requests_are_remembered(
    m: Tally,
    c: Completion,
    duration: u128,
    now: u64,
    i: int,
)
    requires
        m.recent.len() <= 100,
    ensures
        ({
            let after = completed(m, c, duration, now).recent;
            let first = after[0];
            &&& after.len() == (if m.recent.len() < 100 {
                m.recent.len() + 1
            } else {
                100
            })
            &&& 0 < i < after.len() ==> after[i] == m.recent[i - 1]
            &&& first.id == c.id && first.status == c.status && first.duration == duration
            &&& first.completed_at == now && first.transport_error == !c.delivered
            &&& first.body == text::text_option(c.body) && first.body_truncated
                == c.body_truncated
            &&& first.client_headers == json::trees_of(c.client_headers@)
            &&& first.upstream == json::tree_option(c.upstream)
        }),
{
}

proof fn lemma_trace_names()
    ensures
        "id"@.len() == 2,
        "body_truncated"@.len() == 14 && "body_truncated"@[0] == 'b',
        "completed_at"@.len() == 12,
        "status"@.len() == 6 && "status"@[0] == 's',
        "duration_ms"@.len() == 11,
        "transport_error"@.len() == 15 && "transport_error"@[0] == 't',
        "body"@.len() == 4,
        "client_headers"@.len() == 14 && "client_headers"@[0] == 'c',
        "upstream"@.len() == 8,
        "started_at"@.len() == 10,
        "total"@.len() == 5,
        "completed"@.len() == 9 && "completed"@[0] == 'c',
        "in_flight"@.len() == 9 && "in_flight"@[0] == 'i',
        "transport_errors"@.len() == 16,
        "status_counts"@.len() == 13,
        "model_counts"@.len() == 12,
        "average_duration_ms"@.len() == 19,
        "max_duration_ms"@.len() == 15 && "max_duration_ms"@[0] == 'm',
        "recent"@.len() == 6 && "recent"@[0] == 'r',
{
    reveal_strlit("id");
    reveal_strlit("body_truncated");
    reveal_strlit("completed_at");
    reveal_strlit("status");
    reveal_strlit("duration_ms");
    reveal_strlit("transport_error");
    reveal_strlit("body");
    reveal_strlit("client_headers");
    reveal_strlit("upstream");
    reveal_strlit("started_at");
    reveal_strlit("total");
    reveal_strlit("completed");
    reveal_strlit("in_flight");
    reveal_strlit("transport_errors");
    reveal_strlit("status_counts");
    reveal_strlit("model_counts");
    reveal_strlit("average_duration_ms");
    reveal_strlit("max_duration_ms");
    reveal_strlit("recent");
}

/// A request is shown with what is remembered of it, and in detail with its body, its headers and
/// what was sent upstream.
pub proof fn law_how_a_request_is_shown(t: Trace, time: Tree)
    ensures
        ({
            let d = detailed(t, time);
            let l = Tree::Object(listed(t, time));
            &&& l.at("id"@).number() == Some(t.id)
            &&& l.at("body_truncated"@) == Tree::Bool(t.body_truncated)
            &&& l.at("completed_at"@).number() == Some(t.completed_at)
            &&& l.at("status"@).number() == Some(t.status as u64)
            &&& l.at("duration_ms"@) == time
            &&& l.at("transport_error"@) == Tree::Bool(t.transport_error)
            &&& d.at("id"@) == l.at("id"@) && d.at("status"@) == l.at("status"@)
            &&& d.at("body_truncated"@) == l.at("body_truncated"@) && d.at("completed_at"@) == l.at(
                "completed_at"@,
            )
            &&& d.at("duration_ms"@) == time && d.at("transport_error"@) == l.at(
                "transport_error"@,
            )
            &&& d.at("body"@).text() == t.body
            &&& d.at("client_headers"@) == Tree::Array(t.client_headers)
            &&& t.upstream matches Some(u) ==> d.at("upstream"@) == u
            &&& t.upstream is None ==> d.at("upstream"@) is Null
        }),
{
    lemma_trace_names();
}

/// The summary gives each count as it is; under way are those that were started and are not over.
pub proof fn law_summary_of_requests(
    m: Tally,
    average: Tree,
    max: Tree,
    times: Seq<Tree>,
    key: Seq<char>,
    i: int,
)
    requires
        m.completed <= m.total,
    ensures
        ({
            let t = snapshot_tree(m, average, max, times);
            &&& t.at("started_at"@).number() == Some(m.started_at)
            &&& t.at("total"@).number() == Some(m.total)
            &&& t.at("completed"@).number() == Some(m.completed)
            &&& t.at("in_flight"@).number() matches Some(n) && n + m.completed == m.total
            &&& t.at("transport_errors"@).number() == Some(m.transport_errors)
            &&& t.at("average_duration_ms"@) == average
            &&& t.at("max_duration_ms"@) == max
            &&& m.status_counts.contains_key(key) ==> t.at("status_counts"@).at(key).number()
                == Some(m.status_counts[key])
            &&& !m.status_counts.contains_key(key) ==> t.at("status_counts"@).field(key) is None
            &&& m.model_counts.contains_key(key) ==> t.at("model_counts"@).at(key).number() == Some(
                m.model_counts[key],
            )
            &&& !m.model_counts.contains_key(key) ==> t.at("model_counts"@).field(key) is None
            &&& t.at("recent"@) matches Tree::Array(list) && list.len() == m.recent.len() && (0 <= i
                < list.len() ==> list[i] == Tree::Object(listed(m.recent[i], times[i])))
        }),
{
    lemma_trace_names();
}

/// A remembered request is found by its number: the first that has it.
pub proof fn law_requests_are_found(list: Seq<Trace>, id: u64, i: int)
    ensures
        trace_position(list, id) is None <==> forall|k: int|
            0 <= k < list.len() ==> (#[trigger] list[k]).id != id,
        0 <= i < list.len() && list[i].id == id && (forall|k: int|
            0 <= k < i ==> (#[trigger] list[k]).id != id) ==> trace_position(list, id) == Some(i),
    decreases list.len(),
{
    if list.len() > 0 {
        let front = list.drop_last();
        let end = list.len() - 1;
        law_requests_are_found(front, id, i);
        assert(list[end] == list.last());
        assert(forall|k: int| 0 <= k < end ==> #[trigger] list[k] == front[k]);
        if trace_position(list, id) is None {
            assert forall|k: int| 0 <= k < list.len() implies (#[trigger] list[k]).id != id by {
                if k < end {
                    assert(front[k].id != id);
                }
            }
        }
        if forall|k: int| 0 <= k < list.len() ==> (#[trigger] list[k]).id != id {
            assert forall|k: int| 0 <= k < front.len() implies (#[trigger] front[k]).id != id by {
                assert(list[k].id != id);
            }
            assert(list[end].id != id);
        }
        if 0 <= i < list.len() && list[i].id == id && (forall|k: int|
            0 <= k < i ==> (#[trigger] list[k]).id != id) {
            if i < end {
                assert(front[i] == list[i]);
                assert forall|k: int| 0 <= k < i implies (#[trigger] front[k]).id != id by {
                    assert(list[k].id != id);
                }
            } else {
                assert forall|k: int| 0 <= k < front.len() implies (#[trigger] front[k]).id != id by {
                    assert(list[k].id != id);
                }
            }
        }
    }
}

/// Durations add up to what 128 bits hold at most.
pub proof fn law_durations_add_up(a: u128, b: u128)
    ensures
        a + b <= u128::MAX ==> added(a, b) == a + b,
        a + b > u128::MAX ==> added(a, b) == u128::MAX,
{
}

/// Requests are numbered one after the other; a start counts nothing else.
pub proof fn law_requests_are_numbered(m: Tally)
    requires
        m.total < u64::MAX,
    ensures
        one_more(m).total == m.total + 1,
        one_more(m) == (Tally { total: one_more(m).total, ..m }),
{
}

} // verus!
