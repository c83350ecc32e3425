//! Bounded observation of requests and responses; the bytes themselves stay untouched.
use crate::clock;
use crate::clock::since;
use crate::digest;
use crate::digest::push_frame;
use crate::digest::sha256_hex;
use crate::json;
use crate::json::parse_json;
use crate::json::Json;
use crate::json::Tree;
use crate::text;
use crate::text::begins_with_bytes;
use crate::text::byte_len;
use crate::text::list_contains;
use crate::text::same;
use crate::text::trim;
use crate::text::utf8_text;
use vstd::prelude::*;
use vstd::utf8::*;

verus! {

broadcast use vstd::seq_lib::group_seq_properties;

/// How many of a request's last input items are remembered.
pub const MAX_ITEMS: usize = 64;

/// The longest identifier, in bytes, that is remembered.
pub const MAX_TEXT: usize = 512;

/// How long after an answer its evidence still counts.
pub const FRESH: u128 = 300_000_000_000;

/// The largest event that is read.
pub const MAX_EVENT: usize = 262_144;

/// The largest event that is read for a recording observer.
pub const MAX_RECORDED_EVENT: usize = 4_194_304;

/// A text that is neither empty nor longer than is remembered.
pub open spec fn bounded(t: Tree) -> Option<Seq<char>> {
    match t.text() {
        Some(s) => if s.len() > 0 && text::byte_length(s) <= MAX_TEXT {
            Some(s)
        } else {
            None
        },
        None => None,
    }
}

pub fn bounded_string(value: Option<&Json>) -> (r: Option<String>)
    ensures
        text::text_option(r) == (match value {
            Some(j) => bounded(j@),
            None => None,
        }),
{
    match value {
        Some(j) => match j.as_text() {
            Some(s) => if !s.as_str().is_empty() && byte_len(s) <= MAX_TEXT {
                Some(s.clone())
            } else {
                None
            },
            None => None,
        },
        None => None,
    }
}

/// What is remembered of one input item.
#[derive(Debug)]
pub struct Item {
    pub index: usize,
    /// The call that a tool's output answers.
    pub call: Option<String>,
    pub user: bool,
}

/// What a request says about the turn that it continues.
#[derive(Debug)]
pub struct Evidence {
    pub prefixes: Vec<(usize, String)>,
    pub items: Vec<Item>,
    pub length: usize,
    pub hash: String,
    pub previous: Option<String>,
}

/// The model of an `Item`.
pub struct ItemView {
    pub index: nat,
    pub call: Option<Seq<char>>,
    pub user: bool,
}

/// The model of an `Evidence`.
pub struct EvidenceView {
    pub prefixes: Seq<(nat, Seq<char>)>,
    pub items: Seq<ItemView>,
    pub length: nat,
    pub hash: Seq<char>,
    pub previous: Option<Seq<char>>,
}

pub open spec fn item_view(item: Item) -> ItemView {
    ItemView {
        index: item.index as nat,
        call: text::text_option(item.call),
        user: item.user,
    }
}

impl View for Evidence {
    type V = EvidenceView;

    open spec fn view(&self) -> EvidenceView {
        EvidenceView {
            prefixes: self.prefixes@.map_values(|p: (usize, String)| (p.0 as nat, p.1@)),
            items: self.items@.map_values(|i: Item| item_view(i)),
            length: self.length as nat,
            hash: self.hash@,
            previous: text::text_option(self.previous),
        }
    }
}

#[derive(Clone, Copy, Debug, PartialEq, Eq, Structural)]
pub enum Kind {
    User,
    Tool,
    Unknown,
}

/// What is known of a conversation's last turn.
#[derive(Debug)]
pub struct Signals {
    pub input: Evidence,
    pub output: Observation,
    pub finished: Option<u128>,
}

/// What a response said.
#[derive(Debug)]
pub struct Observation {
    pub valid: bool,
    pub terminal: bool,
    pub successful: bool,
    pub rate_limited: bool,
    pub quota_exhausted: bool,
    pub response_id: Option<String>,
    pub calls: Vec<String>,
}

/// The model of an `Observation`.
pub struct Noted {
    pub valid: bool,
    pub terminal: bool,
    pub successful: bool,
    pub rate_limited: bool,
    pub quota_exhausted: bool,
    pub response_id: Option<Seq<char>>,
    pub calls: Seq<Seq<char>>,
}

impl View for Observation {
    type V = Noted;

    open spec fn view(&self) -> Noted {
        Noted {
            valid: self.valid,
            terminal: self.terminal,
            successful: self.successful,
            rate_limited: self.rate_limited,
            quota_exhausted: self.quota_exhausted,
            response_id: text::text_option(self.response_id),
            calls: text::texts(self.calls@),
        }
    }
}

/// The model of a `Signals`.
pub struct SignalsView {
    pub input: EvidenceView,
    pub output: Noted,
    pub finished: Option<u128>,
}

impl View for Signals {
    type V = SignalsView;

    open spec fn view(&self) -> SignalsView {
        SignalsView { input: self.input@, output: self.output@, finished: self.finished }
    }
}

/// The bytes of each input item.
pub open spec fn item_texts(items: Seq<Tree>) -> Seq<Seq<u8>> {
    items.map_values(|t: Tree| json::json_text(t))
}

/// The digest of the first `n` input items.
pub open spec fn prefix_hash(items: Seq<Tree>, n: int) -> Seq<char> {
    digest::digest_of(item_texts(items).take(n))
}

/// Whether an input item is the output of a tool.
pub open spec fn is_tool_output(item: Tree) -> bool {
    item.says("type"@, "function_call_output"@) || item.says("type"@, "custom_tool_call_output"@)
}

/// What is remembered of the input item at a position.
pub open spec fn remembered(items: Seq<Tree>, n: int) -> ItemView {
    ItemView {
        index: n as nat,
        call: if is_tool_output(items[n]) {
            bounded(items[n].at("call_id"@))
        } else {
            None
        },
        user: items[n].says("role"@, "user"@),
    }
}

/// The position of the first input item that is remembered.
pub open spec fn first_kept(n: int) -> int {
    if n > MAX_ITEMS {
        n - MAX_ITEMS
    } else {
        0
    }
}

/// What a request body says about the turn that it continues.
pub open spec fn evidence_of(body: Tree) -> EvidenceView {
    let previous = bounded(body.at("previous_response_id"@));
    match body.at("input"@).items() {
        None => EvidenceView {
            prefixes: Seq::empty(),
            items: Seq::empty(),
            length: 0,
            hash: Seq::empty(),
            previous,
        },
        Some(items) => {
            let first = first_kept(items.len() as int);
            EvidenceView {
                prefixes: Seq::new(
                    (items.len() - first) as nat,
                    |i: int| ((first + i) as nat, prefix_hash(items, first + i)),
                ),
                items: Seq::new((items.len() - first) as nat, |i: int| remembered(items, first + i)),
                length: items.len(),
                hash: prefix_hash(items, items.len() as int),
                previous,
            }
        },
    }
}

/// Where the items that a request adds to the prior turn begin, if it continues that turn.
pub open spec fn continues_at(e: EvidenceView, prior: SignalsView) -> Option<nat> {
    if e.previous is Some && e.previous == prior.output.response_id {
        Some(0)
    } else if e.prefixes.contains((prior.input.length, prior.input.hash)) {
        Some(prior.input.length)
    } else {
        None
    }
}

/// The remembered items from a position on.
pub open spec fn added_items(items: Seq<ItemView>, start: nat) -> Seq<ItemView> {
    items.filter(|i: ItemView| i.index >= start)
}

/// Whether no item is a user's and every output answers a call that was observed.
pub open spec fn answers_only(added: Seq<ItemView>, calls: Seq<Seq<char>>) -> bool {
    forall|i: int| 0 <= i < added.len() ==> answers(#[trigger] added[i], calls)
}

pub open spec fn answers(item: ItemView, calls: Seq<Seq<char>>) -> bool {
    !item.user && (item.call matches Some(id) ==> calls.contains(id))
}

proof fn lemma_answers_push(added: Seq<ItemView>, item: ItemView, calls: Seq<Seq<char>>)
    ensures
        answers_only(added.push(item), calls) == (answers_only(added, calls) && answers(
            item,
            calls,
        )),
{
    let more = added.push(item);
    if answers_only(more, calls) {
        assert forall|i: int| 0 <= i < added.len() implies answers(#[trigger] added[i], calls) by {
            assert(more[i] == added[i]);
        }
        assert(more[added.len() as int] == item);
    }
}

/// Who added the items: the user where the last is theirs, tools where the last is an output,
/// none is a user's and every output answers a call that was observed.
pub open spec fn kind_of_added(added: Seq<ItemView>, calls: Seq<Seq<char>>) -> Kind {
    if added.len() > 0 && added.last().user {
        Kind::User
    } else if added.len() > 0 && added.last().call is Some && answers_only(added, calls) {
        Kind::Tool
    } else {
        Kind::Unknown
    }
}

/// How a request continues the prior turn.
pub open spec fn kind_of(e: EvidenceView, prior: SignalsView, now: u128) -> Kind {
    match prior.finished {
        None => Kind::Unknown,
        Some(finished) => if !prior.output.valid || clock::elapsed(now, finished) > FRESH {
            Kind::Unknown
        } else {
            match continues_at(e, prior) {
                None => Kind::Unknown,
                Some(start) => if e.length > start + MAX_ITEMS {
                    Kind::Unknown
                } else {
                    kind_of_added(added_items(e.items, start), prior.output.calls)
                },
            }
        },
    }
}

impl Evidence {
    /// Nothing known.
    pub fn none() -> (r: Evidence)
        ensures
            r@ == (EvidenceView {
                prefixes: Seq::empty(),
                items: Seq::empty(),
                length: 0,
                hash: Seq::empty(),
                previous: None,
            }),
    {
        let r = Evidence {
            prefixes: Vec::new(),
            items: Vec::new(),
            length: 0,
            hash: String::new(),
            previous: None,
        };
        assert(r@.prefixes =~= Seq::empty());
        assert(r@.items =~= Seq::empty());
        r
    }

    /// Reads a request body.
    pub fn read(body: &Json) -> (r: Evidence)
        ensures
            r@ == evidence_of(body@),
    {
        let previous = bounded_string(body.get("previous_response_id"));
        let items = match body.items_at("input") {
            Some(items) => items,
            None => {
                let r = Evidence {
                    prefixes: Vec::new(),
                    items: Vec::new(),
                    length: 0,
                    hash: String::new(),
                    previous,
                };
                assert(r@.prefixes =~= Seq::empty());
                assert(r@.items =~= Seq::empty());
                return r;
            },
        };
        let ghost trees = json::trees_of(items@);
        let ghost first = first_kept(trees.len() as int);
        let mut framed: Vec<u8> = Vec::new();
        let mut prefixes: Vec<(usize, String)> = Vec::new();
        let mut kept: Vec<Item> = Vec::new();
        let mut i: usize = 0;
        assert(item_texts(trees).take(0) == Seq::<Seq<u8>>::empty());
        while i < items.len()
            invariant
                i <= items.len(),
                trees == json::trees_of(items@),
                trees.len() == items@.len(),
                first == first_kept(trees.len() as int),
                forall|k: int| 0 <= k < items@.len() ==> #[trigger] trees[k] == items@[k]@,
                framed@ == digest::framed(item_texts(trees).take(i as int)),
                prefixes@.len() == kept@.len(),
                kept@.len() == (if i > first {
                    i - first
                } else {
                    0
                }),
                forall|k: int|
                    0 <= k < prefixes@.len() ==> (#[trigger] prefixes@[k]).0 == first + k
                        && prefixes@[k].1@ == prefix_hash(trees, first + k),
                forall|k: int|
                    0 <= k < kept@.len() ==> item_view(#[trigger] kept@[k]) == remembered(
                        trees,
                        first + k,
                    ),
            decreases items.len() - i,
        {
            let item = &items[i];
            assert(trees[i as int] == item@);
            if items.len() - i <= MAX_ITEMS {
                prefixes.push((i, sha256_hex(&framed)));
                let output = item.says("type", "function_call_output") || item.says(
                    "type",
                    "custom_tool_call_output",
                );
                let call = if output {
                    bounded_string(item.get("call_id"))
                } else {
                    None
                };
                kept.push(Item { index: i, call, user: item.says("role", "user") });
            }
            push_frame(&mut framed, &item.to_bytes());
            proof {
                assert(item_texts(trees).take(i + 1).drop_last() == item_texts(trees).take(
                    i as int,
                ));
                assert(item_texts(trees).take(i + 1).last() == json::json_text(item@));
            }
            i += 1;
        }
        let r = Evidence {
            prefixes,
            items: kept,
            length: items.len(),
            hash: sha256_hex(&framed),
            previous,
        };
        proof {
            assert(r@.prefixes =~= evidence_of(body@).prefixes);
            assert(r@.items =~= evidence_of(body@).items);
        }
        r
    }

    /// How a request continues the prior turn.
    pub fn kind(&self, prior: &Signals, now: u128) -> (r: Kind)
        ensures
            r == kind_of(self@, prior@, now),
    {
        let finished = match prior.finished {
            Some(at) => at,
            None => return Kind::Unknown,
        };
        if !prior.output.valid || since(now, finished) > FRESH {
            return Kind::Unknown;
        }
        let resumes = match (&self.previous, &prior.output.response_id) {
            (Some(a), Some(b)) => same(a, b),
            _ => false,
        };
        let start: usize = if resumes {
            0
        } else if self.has_prefix(prior.input.length, &prior.input.hash) {
            prior.input.length
        } else {
            return Kind::Unknown;
        };
        if self.length > start && self.length - start > MAX_ITEMS {
            return Kind::Unknown;
        }
        let ghost p = |i: ItemView| i.index >= start as nat;
        let ghost views = self@.items;
        let ghost calls = prior.output@.calls;
        let ghost mut added: Seq<ItemView> = Seq::empty();
        let mut last_user = false;
        let mut last_output = false;
        let mut clean = true;
        let mut i: usize = 0;
        proof {
            reveal(Seq::filter);
            assert(views.take(0) == Seq::<ItemView>::empty());
            assert(added == views.take(0).filter(p));
        }
        while i < self.items.len()
            invariant
                i <= self.items.len(),
                views == self@.items,
                views.len() == self.items@.len(),
                calls == prior.output@.calls,
                p == (|i: ItemView| i.index >= start as nat),
                added == views.take(i as int).filter(p),
                last_user == (added.len() > 0 && added.last().user),
                last_output == (added.len() > 0 && added.last().call is Some),
                clean == answers_only(added, calls),
            decreases self.items.len() - i,
        {
            let item = &self.items[i];
            proof {
                reveal(Seq::filter);
                assert(views.take(i + 1).drop_last() == views.take(i as int));
                assert(views[i as int] == item_view(*item));
            }
            if item.index >= start {
                proof {
                    lemma_answers_push(added, item_view(*item), calls);
                    added = added.push(item_view(*item));
                }
                last_user = item.user;
                last_output = item.call.is_some();
                let known = match &item.call {
                    Some(id) => list_contains(&prior.output.calls, id),
                    None => true,
                };
                clean = clean && !item.user && known;
            }
            i += 1;
        }
        assert(views.take(views.len() as int) == views);
        if last_user {
            Kind::User
        } else if last_output && clean {
            Kind::Tool
        } else {
            Kind::Unknown
        }
    }

    fn has_prefix(&self, length: usize, hash: &str) -> (r: bool)
        ensures
            r == self@.prefixes.contains((length as nat, hash@)),
    {
        let mut i: usize = 0;
        while i < self.prefixes.len()
            invariant
                i <= self.prefixes.len(),
                forall|k: int|
                    0 <= k < i ==> #[trigger] self@.prefixes[k] != (length as nat, hash@),
            decreases self.prefixes.len() - i,
        {
            assert(self@.prefixes[i as int] == (
                self.prefixes@[i as int].0 as nat,
                self.prefixes@[i as int].1@,
            ));
            if self.prefixes[i].0 == length && same(&self.prefixes[i].1, hash) {
                return true;
            }
            i += 1;
        }
        false
    }
}

/// Watches a response as it passes.
#[derive(Debug)]
pub struct Observer {
    /// Whether every event that is read is kept for a recorder.
    pub recording: bool,
    pub streaming: bool,
    pub line: Vec<u8>,
    pub data: Vec<u8>,
    pub overflow: bool,
    pub named_terminal: bool,
    pub observation: Observation,
    /// The events that a recorder has not taken yet.
    pub events: Vec<Json>,
}

/// The model of an `Observer`.
pub struct Watching {
    pub recording: bool,
    pub streaming: bool,
    pub line: Seq<u8>,
    pub data: Seq<u8>,
    pub overflow: bool,
    pub named_terminal: bool,
    pub seen: Noted,
    pub events: Seq<Tree>,
}

impl View for Observer {
    type V = Watching;

    open spec fn view(&self) -> Watching {
        Watching {
            recording: self.recording,
            streaming: self.streaming,
            line: self.line@,
            data: self.data@,
            overflow: self.overflow,
            named_terminal: self.named_terminal,
            seen: self.observation@,
            events: json::trees_of(self.events@),
        }
    }
}

/// The names of the events that end a response.
pub open spec fn is_terminal_name(name: Seq<char>) -> bool {
    name == "response.completed"@ || name == "response.failed"@ || name == "response.incomplete"@
}

/// The codes of errors that mean a used-up quota.
pub open spec fn is_quota_code(code: Option<Seq<char>>) -> bool {
    code == Some("insufficient_quota"@) || code == Some("billing_hard_limit_reached"@) || code
        == Some("usage_limit_reached"@)
}

/// The codes of errors that mean too many requests.
pub open spec fn is_rate_code(code: Option<Seq<char>>) -> bool {
    code == Some("rate_limit_exceeded"@) || code == Some("rate_limit_error"@)
}

/// The part of an event that describes the response.
pub open spec fn response_part(event: Tree, streaming: bool) -> Tree {
    if streaming {
        event.at("response"@)
    } else {
        event
    }
}

/// Whether an event ends the response.
pub open spec fn ends_response(event: Tree, streaming: bool) -> bool {
    ||| (event.text_at("type"@) matches Some(kind) && is_terminal_name(kind))
    ||| (!streaming && (event.says("status"@, "completed"@) || event.says("status"@, "failed"@)
        || event.says("status"@, "incomplete"@)))
}

/// What an event says of the response as a whole.
pub open spec fn noted_head(seen: Noted, event: Tree, streaming: bool) -> Noted {
    let response = response_part(event, streaming);
    let error = response.at("error"@);
    let ends = ends_response(event, streaming);
    Noted {
        quota_exhausted: seen.quota_exhausted || is_quota_code(error.text_at("code"@))
            || is_quota_code(error.text_at("type"@)),
        response_id: match bounded(response.at("id"@)) {
            Some(id) => Some(id),
            None => seen.response_id,
        },
        terminal: seen.terminal || ends,
        successful: if ends {
            event.says("type"@, "response.completed"@) || (!streaming && event.says(
                "status"@,
                "completed"@,
            ))
        } else {
            seen.successful
        },
        rate_limited: if ends {
            is_rate_code(error.text_at("code"@))
        } else {
            seen.rate_limited
        },
        valid: seen.valid,
        calls: seen.calls,
    }
}

/// The output items that an event holds.
pub open spec fn output_items(event: Tree, streaming: bool) -> Seq<Tree> {
    let single = if event.says("type"@, "response.output_item.done"@) {
        seq![event.at("item"@)]
    } else {
        Seq::empty()
    };
    match response_part(event, streaming).at("output"@).items() {
        Some(items) => single + items,
        None => single,
    }
}

/// Whether an output item calls a tool.
pub open spec fn is_tool_call(item: Tree) -> bool {
    item.says("type"@, "function_call"@) || item.says("type"@, "custom_tool_call"@)
}

/// A list with an element at its end, where it is not in it yet.
pub open spec fn with_call(calls: Seq<Seq<char>>, id: Seq<char>) -> Seq<Seq<char>> {
    if calls.contains(id) {
        calls
    } else {
        calls.push(id)
    }
}

/// Notes the tool call that an output item may be, and whether the list is now too long and
/// nothing more is to be noted.
pub open spec fn noted_call(seen: Noted, item: Tree) -> (Noted, bool) {
    if !is_tool_call(item) {
        (seen, false)
    } else {
        match bounded(item.at("call_id"@)) {
            Some(id) => if with_call(seen.calls, id).len() > MAX_ITEMS {
                (Noted { valid: false, calls: Seq::empty(), ..seen }, true)
            } else {
                (Noted { calls: with_call(seen.calls, id), ..seen }, false)
            },
            None => (Noted { valid: false, ..seen }, false),
        }
    }
}

/// Notes the tool calls among output items; too many of them, or one that cannot be named,
/// make the observation worthless.
pub open spec fn noted_calls(seen: Noted, items: Seq<Tree>) -> Noted
    decreases items.len(),
{
    if items.len() == 0 {
        seen
    } else {
        let (next, stop) = noted_call(seen, items[0]);
        if stop {
            next
        } else {
            noted_calls(next, items.skip(1))
        }
    }
}

/// Data that is no document but no fault either.
pub open spec fn is_idle_data(data: Seq<u8>) -> bool {
    match text::utf8_of(data) {
        Some(s) => text::trimmed(s).len() == 0 || text::trimmed(s) == "[DONE]"@,
        None => false,
    }
}

/// The state after the collected data is read as an event.
pub open spec fn parsed(w: Watching) -> Watching {
    match json::json_document(w.data) {
        None => if is_idle_data(w.data) {
            w
        } else {
            Watching { seen: (Noted { valid: false, ..w.seen }), ..w }
        },
        Some(event) => Watching {
            seen: noted_calls(
                noted_head(w.seen, event, w.streaming),
                output_items(event, w.streaming),
            ),
            events: if w.recording {
                w.events.push(event)
            } else {
                w.events
            },
            ..w
        },
    }
}

/// The largest event that is read.
pub open spec fn event_limit(recording: bool) -> nat {
    if recording {
        MAX_RECORDED_EVENT as nat
    } else {
        MAX_EVENT as nat
    }
}

/// A line without the carriage return at its end.
pub open spec fn bare_line(line: Seq<u8>) -> Seq<u8> {
    if line.len() > 0 && line.last() == 13u8 {
        line.drop_last()
    } else {
        line
    }
}

/// The state after an empty line ends an event.
pub open spec fn event_ended(w: Watching) -> Watching {
    let read = if w.overflow {
        w
    } else {
        parsed(w)
    };
    Watching {
        seen: (Noted {
            terminal: read.seen.terminal || (w.named_terminal && (w.overflow || w.data.len() > 0)),
            ..read.seen
        }),
        named_terminal: false,
        data: Seq::empty(),
        overflow: false,
        ..read
    }
}

/// Whether a line's value names an event that ends the response.
pub open spec fn names_terminal(value: Seq<u8>) -> bool {
    match text::utf8_of(value) {
        Some(name) => is_terminal_name(text::trimmed(name)),
        None => false,
    }
}

/// The state after a line that is not empty.
pub open spec fn line_read(w: Watching, line: Seq<u8>) -> Watching {
    let event = encode_utf8("event:"@);
    let data = encode_utf8("data:"@);
    if event.is_prefix_of(line) {
        Watching { named_terminal: names_terminal(line.skip(event.len() as int)), ..w }
    } else if data.is_prefix_of(line) && !w.overflow {
        if w.data.len() + line.len() > event_limit(w.recording) {
            Watching { overflow: true, seen: (Noted { valid: false, ..w.seen }), ..w }
        } else {
            Watching { data: (w.data + line.skip(data.len() as int)).push(10u8), ..w }
        }
    } else {
        w
    }
}

/// The state after one byte of a stream.
pub open spec fn stepped(w: Watching, byte: u8) -> Watching {
    if byte == 10u8 {
        let line = bare_line(w.line);
        let next = if line.len() == 0 {
            event_ended(w)
        } else {
            line_read(w, line)
        };
        Watching { line: Seq::empty(), ..next }
    } else if w.line.len() < event_limit(w.recording) {
        Watching { line: w.line.push(byte), ..w }
    } else {
        Watching { overflow: true, seen: (Noted { valid: false, ..w.seen }), ..w }
    }
}

/// The state after some bytes of a stream.
pub open spec fn streamed(w: Watching, bytes: Seq<u8>) -> Watching
    decreases bytes.len(),
{
    if bytes.len() == 0 {
        w
    } else {
        stepped(streamed(w, bytes.drop_last()), bytes.last())
    }
}

/// The state after some bytes of a body that comes as one document.
pub open spec fn collected(w: Watching, bytes: Seq<u8>) -> Watching {
    if w.data.len() + bytes.len() <= event_limit(w.recording) {
        Watching { data: w.data + bytes, ..w }
    } else {
        Watching {
            overflow: true,
            data: Seq::empty(),
            seen: (Noted { valid: false, ..w.seen }),
            ..w
        }
    }
}

/// The state after some more bytes.
pub open spec fn fed(w: Watching, bytes: Seq<u8>) -> Watching {
    if w.streaming {
        streamed(w, bytes)
    } else {
        collected(w, bytes)
    }
}

/// What was seen once the response is over.
pub open spec fn concluded(w: Watching) -> Watching {
    let read = if !w.streaming && !w.overflow {
        parsed(w)
    } else {
        w
    };
    Watching { seen: (Noted { valid: read.seen.valid && read.seen.terminal, ..read.seen }), ..read }
}

/// An observer that has seen nothing.
pub open spec fn fresh_watch(streaming: bool, recording: bool) -> Watching {
    Watching {
        recording,
        streaming,
        line: Seq::empty(),
        data: Seq::empty(),
        overflow: false,
        named_terminal: false,
        seen: Noted {
            valid: true,
            terminal: false,
            successful: false,
            rate_limited: false,
            quota_exhausted: false,
            response_id: None,
            calls: Seq::empty(),
        },
        events: Seq::empty(),
    }
}

fn is_any(code: Option<&String>, first: &str, second: &str, third: &str) -> (r: bool)
    ensures
        r == (code matches Some(s) && (s@ == first@ || s@ == second@ || s@ == third@)),
{
    match code {
        Some(s) => same(s, first) || same(s, second) || same(s, third),
        None => false,
    }
}

impl Observation {
    /// Nothing seen.
    pub fn none() -> (r: Observation)
        ensures
            r@ == (Noted { valid: false, ..fresh_watch(false, false).seen }),
    {
        let r = Observation {
            valid: false,
            terminal: false,
            successful: false,
            rate_limited: false,
            quota_exhausted: false,
            response_id: None,
            calls: Vec::new(),
        };
        assert(r@.calls =~= Seq::empty());
        r
    }

    /// Notes what an event says of the response as a whole.
    fn note_head(&mut self, event: &Json, streaming: bool)
        ensures
            final(self)@ == noted_head(old(self)@, event@, streaming),
    {
        let response = if streaming {
            event.get("response")
        } else {
            Some(event)
        };
        let error = match response {
            Some(response) => response.get("error"),
            None => None,
        };
        let (code, kind) = match error {
            Some(error) => (error.text_at("code"), error.text_at("type")),
            None => (None, None),
        };
        if is_any(
            code,
            "insufficient_quota",
            "billing_hard_limit_reached",
            "usage_limit_reached",
        ) || is_any(
            kind,
            "insufficient_quota",
            "billing_hard_limit_reached",
            "usage_limit_reached",
        ) {
            self.quota_exhausted = true;
        }
        let id = match response {
            Some(response) => bounded_string(response.get("id")),
            None => None,
        };
        if id.is_some() {
            self.response_id = id;
        }
        if is_any(
            event.text_at("type"),
            "response.completed",
            "response.failed",
            "response.incomplete",
        ) || (!streaming && is_any(event.text_at("status"), "completed", "failed", "incomplete")) {
            self.terminal = true;
            self.successful = event.says("type", "response.completed") || (!streaming
                && event.says("status", "completed"));
            self.rate_limited = is_any(
                code,
                "rate_limit_exceeded",
                "rate_limit_error",
                "rate_limit_error",
            );
        }
    }

    /// Notes a tool call; whether there are too many of them.
    fn note_call(&mut self, item: &Json) -> (r: bool)
        ensures
            (final(self)@, r) == noted_call(old(self)@, item@),
    {
        if !item.says("type", "function_call") && !item.says("type", "custom_tool_call") {
            return false;
        }
        match bounded_string(item.get("call_id")) {
            Some(id) => {
                if !list_contains(&self.calls, &id) {
                    let ghost before = text::texts(self.calls@);
                    self.calls.push(id);
                    assert(text::texts(self.calls@) =~= before.push(id@));
                }
                if self.calls.len() > MAX_ITEMS {
                    self.valid = false;
                    self.calls.clear();
                    assert(text::texts(self.calls@) =~= Seq::empty());
                    true
                } else {
                    false
                }
            },
            None => {
                self.valid = false;
                false
            },
        }
    }

    /// Notes the tool calls among output items.
    fn note_calls(&mut self, items: &Vec<Json>)
        ensures
            final(self)@ == noted_calls(old(self)@, json::trees_of(items@)),
    {
        let ghost start = self@;
        let ghost trees = json::trees_of(items@);
        let mut i: usize = 0;
        proof {
            json::lemma_trees_of(items@);
            assert(trees.skip(0) == trees);
        }
        while i < items.len()
            invariant
                i <= items.len(),
                start == old(self)@,
                trees == json::trees_of(items@),
                trees.len() == items@.len(),
                forall|k: int| 0 <= k < items@.len() ==> #[trigger] trees[k] == json::tree_of(
                    items@[k],
                ),
                noted_calls(self@, trees.skip(i as int)) == noted_calls(start, trees),
            decreases items.len() - i,
        {
            assert(trees.skip(i as int)[0] == trees[i as int]);
            assert(trees.skip(i as int).skip(1) == trees.skip(i + 1));
            if self.note_call(&items[i]) {
                return;
            }
            i += 1;
        }
    }
}

/// What a line does to the state does not depend on the line kept there.
proof fn lemma_line_apart(w: Watching, line: Seq<u8>)
    ensures
        (Watching { line: Seq::empty(), ..event_ended(Watching { line, ..w }) }) == (Watching {
            line: Seq::empty(),
            ..event_ended(w)
        }),
        (Watching { line: Seq::empty(), ..line_read(Watching { line, ..w }, line) }) == (Watching {
            line: Seq::empty(),
            ..line_read(w, line)
        }),
{
}

impl Observer {
    pub fn new(streaming: bool) -> (r: Observer)
        ensures
            r@ == fresh_watch(streaming, false),
    {
        let r = Observer {
            recording: false,
            streaming,
            line: Vec::new(),
            data: Vec::new(),
            overflow: false,
            named_terminal: false,
            observation: Observation {
                valid: true,
                terminal: false,
                successful: false,
                rate_limited: false,
                quota_exhausted: false,
                response_id: None,
                calls: Vec::new(),
            },
            events: Vec::new(),
        };
        assert(r@.seen.calls =~= Seq::empty());
        assert(r@.events =~= Seq::empty());
        r
    }

    fn max_event(&self) -> (r: usize)
        ensures
            r == event_limit(self.recording),
    {
        if self.recording {
            MAX_RECORDED_EVENT
        } else {
            MAX_EVENT
        }
    }

    /// Takes in some more bytes of the response.
    pub fn bytes(&mut self, bytes: &[u8])
        ensures
            final(self)@ == fed(old(self)@, bytes@),
    {
        let max_event = self.max_event();
        if !self.streaming {
            if self.data.len() <= max_event && bytes.len() <= max_event - self.data.len() {
                self.data.extend_from_slice(bytes);
                assert(self.data@ =~= old(self).data@ + bytes@);
            } else {
                self.observation.valid = false;
                self.overflow = true;
                self.data.clear();
                assert(self.data@ =~= Seq::empty());
            }
            return;
        }
        let ghost start = self@;
        let mut i: usize = 0;
        assert(bytes@.take(0) == Seq::<u8>::empty());
        while i < bytes.len()
            invariant
                i <= bytes.len(),
                self@ == streamed(start, bytes@.take(i as int)),
            decreases bytes.len() - i,
        {
            self.step(bytes[i]);
            proof {
                assert(bytes@.take(i + 1).drop_last() == bytes@.take(i as int));
            }
            i += 1;
        }
        assert(bytes@.take(bytes@.len() as int) == bytes@);
    }

    fn step(&mut self, byte: u8)
        ensures
            final(self)@ == stepped(old(self)@, byte),
    {
        let ghost start = self@;
        if byte == 10u8 {
            if self.line.len() > 0 && self.line[self.line.len() - 1] == 13u8 {
                let _ = self.line.pop();
            }
            let ghost line = self.line@;
            assert(line == bare_line(start.line));
            if self.line.len() == 0 {
                self.end_event();
            } else {
                self.read_line();
            }
            self.line.clear();
            assert(self.line@ =~= Seq::empty());
            proof {
                lemma_line_apart(start, line);
            }
        } else if self.line.len() < self.max_event() {
            self.line.push(byte);
        } else {
            self.overflow = true;
            self.observation.valid = false;
        }
    }

    fn end_event(&mut self)
        ensures
            final(self)@ == event_ended(old(self)@),
    {
        if !self.overflow {
            self.parse();
        }
        if self.named_terminal && (self.overflow || self.data.len() > 0) {
            self.observation.terminal = true;
        }
        self.named_terminal = false;
        self.data.clear();
        assert(self.data@ =~= Seq::empty());
        self.overflow = false;
    }

    fn read_line(&mut self)
        ensures
            final(self)@ == line_read(old(self)@, old(self).line@),
    {
        if begins_with_bytes(&self.line, "event:") {
            let from = "event:".as_bytes().len();
            let value = vstd::slice::slice_subrange(self.line.as_slice(), from, self.line.len());
            assert(value@ == self.line@.skip(from as int));
            self.named_terminal = match utf8_text(value) {
                Some(name) => {
                    let name = trim(&name);
                    same(&name, "response.completed") || same(&name, "response.failed") || same(
                        &name,
                        "response.incomplete",
                    )
                },
                None => false,
            };
        } else if begins_with_bytes(&self.line, "data:") && !self.overflow {
            let limit = self.max_event();
            if self.data.len() > limit || self.line.len() > limit - self.data.len() {
                self.overflow = true;
                self.observation.valid = false;
            } else {
                let from = "data:".as_bytes().len();
                let value = vstd::slice::slice_subrange(
                    self.line.as_slice(),
                    from,
                    self.line.len(),
                );
                assert(value@ == self.line@.skip(from as int));
                self.data.extend_from_slice(value);
                self.data.push(10u8);
                assert(self.data@ =~= (old(self).data@ + value@).push(10u8));
            }
        }
    }

    /// Reads the collected data as an event.
    fn parse(&mut self)
        ensures
            final(self)@ == parsed(old(self)@),
    {
        let event = match parse_json(&self.data) {
            Some(event) => event,
            None => {
                let idle = match utf8_text(&self.data) {
                    Some(s) => {
                        let s = trim(&s);
                        s.as_str().is_empty() || same(&s, "[DONE]")
                    },
                    None => false,
                };
                if !idle {
                    self.observation.valid = false;
                }
                return;
            },
        };
        let ghost start = self@;
        let streaming = self.streaming;
        self.observation.note_head(&event, streaming);
        let ghost head = self.observation@;
        let stopped = if event.says("type", "response.output_item.done") {
            match event.get("item") {
                Some(item) => self.observation.note_call(item),
                None => false,
            }
        } else {
            false
        };
        let output = if streaming {
            match event.get("response") {
                Some(response) => response.items_at("output"),
                None => None,
            }
        } else {
            event.items_at("output")
        };
        let ghost single = if event@.says("type"@, "response.output_item.done"@) {
            seq![event@.at("item"@)]
        } else {
            Seq::empty()
        };
        let ghost rest = match response_part(event@, streaming).at("output"@).items() {
            Some(items) => items,
            None => Seq::empty(),
        };
        proof {
            assert(output_items(event@, streaming) == single + rest);
            if single.len() > 0 {
                assert((single + rest).skip(1) == rest);
            } else {
                assert(single + rest == rest);
            }
            assert(noted_calls(self.observation@, Seq::empty()) == self.observation@);
        }
        if !stopped {
            if let Some(items) = output {
                self.observation.note_calls(items);
            }
        }
        assert(self.observation@ == noted_calls(head, single + rest));
        if self.recording {
            let ghost before = self.events@;
            self.events.push(event);
            assert(self.events@.drop_last() == before);
        }
    }

    /// Takes note of the response's end.
    pub fn conclude(&mut self)
        ensures
            final(self)@ == concluded(old(self)@),
    {
        if !self.streaming && !self.overflow {
            self.parse();
        }
        if !self.observation.terminal {
            self.observation.valid = false;
        }
    }

    /// What was seen, once the response is over.
    pub fn finish(self) -> (r: Observation)
        ensures
            r@ == concluded(self@).seen,
    {
        let mut observer = self;
        observer.conclude();
        observer.observation
    }

    /// Hands out the events that were read since the last time.
    pub fn take_events(&mut self) -> (r: Vec<Json>)
        ensures
            json::trees_of(r@) == old(self)@.events,
            final(self)@ == (Watching { events: Seq::empty(), ..old(self)@ }),
    {
        let mut out: Vec<Json> = Vec::new();
        out.append(&mut self.events);
        assert(out@ =~= old(self).events@);
        assert(json::trees_of(self.events@) =~= Seq::empty());
        out
    }
}

/// The bytes of a stream may come in any pieces: feeding two pieces in turn is feeding them
/// joined together.
pub proof fn law_chunk_boundaries(w: Watching, a: Seq<u8>, b: Seq<u8>)
    requires
        w.streaming,
    ensures
        fed(fed(w, a), b) == fed(w, a + b),
    decreases b.len(),
{
    lemma_streaming_stays(w, a);
    lemma_streamed_join(w, a, b);
}

proof fn lemma_streaming_stays(w: Watching, a: Seq<u8>)
    ensures
        streamed(w, a).streaming == w.streaming,
    decreases a.len(),
{
    if a.len() > 0 {
        lemma_streaming_stays(w, a.drop_last());
    }
}

proof fn lemma_streamed_join(w: Watching, a: Seq<u8>, b: Seq<u8>)
    ensures
        streamed(streamed(w, a), b) == streamed(w, a + b),
    decreases b.len(),
{
    if b.len() == 0 {
        assert(a + b == a);
    } else {
        lemma_streamed_join(w, a, b.drop_last());
        assert((a + b).drop_last() == a + b.drop_last());
        assert((a + b).last() == b.last());
    }
}

/// A body that comes as one document may come in any pieces too: what is seen in it, and what is
/// recorded of it, is the same in the end, even where it is too large. What is left to be read
/// is the same as well where it is not.
pub proof fn law_document_boundaries(w: Watching, a: Seq<u8>, b: Seq<u8>)
    requires
        !w.streaming,
    ensures
        concluded(fed(fed(w, a), b)).seen == concluded(fed(w, a + b)).seen,
        concluded(fed(fed(w, a), b)).events == concluded(fed(w, a + b)).events,
        w.data.len() + a.len() + b.len() <= event_limit(w.recording) ==> fed(fed(w, a), b) == fed(
            w,
            a + b,
        ),
{
    assert(w.data + a + b == w.data + (a + b));
}

/// Whether an observation holds together: a success is an end, the calls are all different and
/// not too many, and they and the response are named by texts that are neither empty nor too
/// long.
pub open spec fn is_sound(seen: Noted) -> bool {
    &&& seen.successful ==> seen.terminal
    &&& seen.calls.no_duplicates()
    &&& seen.calls.len() <= MAX_ITEMS
    &&& forall|i: int| 0 <= i < seen.calls.len() ==> is_remembered_name(#[trigger] seen.calls[i])
    &&& seen.response_id matches Some(id) ==> is_remembered_name(id)
}

pub open spec fn is_remembered_name(s: Seq<char>) -> bool {
    1 <= text::byte_length(s) <= MAX_TEXT
}

/// The state after a response came in pieces.
pub open spec fn watched(streaming: bool, recording: bool, pieces: Seq<Seq<u8>>) -> Watching
    decreases pieces.len(),
{
    if pieces.len() == 0 {
        fresh_watch(streaming, recording)
    } else {
        fed(watched(streaming, recording, pieces.drop_last()), pieces.last())
    }
}

/// Whatever a response says, what is noted of it holds together: a success implies an end, the
/// calls are different and at most as many as are remembered, and they and the response are
/// named by texts of one byte up to the longest.
pub proof fn law_observations_hold_together(
    streaming: bool,
    recording: bool,
    pieces: Seq<Seq<u8>>,
)
    ensures
        is_sound(watched(streaming, recording, pieces).seen),
        is_sound(concluded(watched(streaming, recording, pieces)).seen),
    decreases pieces.len(),
{
    if pieces.len() > 0 {
        law_observations_hold_together(streaming, recording, pieces.drop_last());
        let w = watched(streaming, recording, pieces.drop_last());
        if w.streaming {
            lemma_sound_streamed(w, pieces.last());
        }
    }
    lemma_sound_parsed(watched(streaming, recording, pieces));
}

proof fn lemma_sound_streamed(w: Watching, bytes: Seq<u8>)
    requires
        is_sound(w.seen),
    ensures
        is_sound(streamed(w, bytes).seen),
    decreases bytes.len(),
{
    if bytes.len() > 0 {
        lemma_sound_streamed(w, bytes.drop_last());
        lemma_sound_parsed(streamed(w, bytes.drop_last()));
    }
}

proof fn lemma_sound_parsed(w: Watching)
    requires
        is_sound(w.seen),
    ensures
        is_sound(parsed(w).seen),
{
    if let Some(event) = json::json_document(w.data) {
        if let Some(id) = bounded(response_part(event, w.streaming).at("id"@)) {
            lemma_named(id);
        }
        lemma_sound_calls(
            noted_head(w.seen, event, w.streaming),
            output_items(event, w.streaming),
        );
    }
}

proof fn lemma_sound_calls(seen: Noted, items: Seq<Tree>)
    requires
        is_sound(seen),
    ensures
        is_sound(noted_calls(seen, items)),
    decreases items.len(),
{
    if items.len() > 0 {
        let (next, stop) = noted_call(seen, items[0]);
        if let Some(id) = bounded(items[0].at("call_id"@)) {
            lemma_named(id);
            let calls = with_call(seen.calls, id);
            assert forall|i: int| 0 <= i < calls.len() implies is_remembered_name(#[trigger] calls[i]) by {
                if i < seen.calls.len() {
                    assert(calls[i] == seen.calls[i]);
                }
            }
            assert(calls.no_duplicates());
        }
        assert(is_sound(next));
        if !stop {
            lemma_sound_calls(next, items.skip(1));
        }
    }
}

/// A text that is not empty has a byte.
proof fn lemma_named(s: Seq<char>)
    requires
        s.len() > 0,
    ensures
        text::byte_length(s) >= 1,
{
    if text::byte_length(s) == 0 {
        let empty = Seq::<char>::empty();
        assert(encode_utf8(s) =~= encode_utf8(empty));
        digest::lemma_encoding_injective(s, empty);
    }
}

/// Once an observation is worthless it stays so.
pub proof fn law_invalid_stays(w: Watching, bytes: Seq<u8>)
    requires
        !w.seen.valid,
    ensures
        !fed(w, bytes).seen.valid,
        !concluded(fed(w, bytes)).seen.valid,
{
    if w.streaming {
        lemma_invalid_streamed(w, bytes);
    }
    lemma_invalid_parsed(fed(w, bytes));
}

proof fn lemma_invalid_calls(seen: Noted, items: Seq<Tree>)
    requires
        !seen.valid,
    ensures
        !noted_calls(seen, items).valid,
    decreases items.len(),
{
    if items.len() > 0 {
        let (next, stop) = noted_call(seen, items[0]);
        if !stop {
            lemma_invalid_calls(next, items.skip(1));
        }
    }
}

proof fn lemma_invalid_parsed(w: Watching)
    requires
        !w.seen.valid,
    ensures
        !parsed(w).seen.valid,
{
    if let Some(event) = json::json_document(w.data) {
        lemma_invalid_calls(
            noted_head(w.seen, event, w.streaming),
            output_items(event, w.streaming),
        );
    }
}

proof fn lemma_invalid_streamed(w: Watching, bytes: Seq<u8>)
    requires
        !w.seen.valid,
    ensures
        !streamed(w, bytes).seen.valid,
    decreases bytes.len(),
{
    if bytes.len() > 0 {
        lemma_invalid_streamed(w, bytes.drop_last());
        lemma_invalid_parsed(streamed(w, bytes.drop_last()));
    }
}

/// A response that ends without its terminal event is never taken as valid.
pub proof fn law_truncated_is_invalid(w: Watching)
    requires
        !concluded(w).seen.terminal,
    ensures
        !concluded(w).seen.valid,
{
}

/// The part of an event that describes the response: a member of an event of a stream, and the
/// whole of a document.
pub open spec fn describes(event: Tree, streaming: bool, response: Tree) -> bool {
    (streaming ==> response == event.at("response"@)) && (!streaming ==> response == event)
}

proof fn lemma_calls_keep_the_head(seen: Noted, items: Seq<Tree>)
    ensures
        ({
            let after = noted_calls(seen, items);
            &&& after.terminal == seen.terminal && after.successful == seen.successful
            &&& after.rate_limited == seen.rate_limited
            &&& after.quota_exhausted == seen.quota_exhausted
            &&& after.response_id == seen.response_id
        }),
    decreases items.len(),
{
    if items.len() > 0 {
        let (next, stop) = noted_call(seen, items[0]);
        if !stop {
            lemma_calls_keep_the_head(next, items.skip(1));
        }
    }
}

/// An error of the response with the code or the type `insufficient_quota`,
/// `billing_hard_limit_reached` or `usage_limit_reached`, and no other, tells that the quota is
/// used up; what was told before stays.
pub proof fn law_used_up_quotas_are_noted(w: Watching, event: Tree, response: Tree)
    requires
        json::json_document(w.data) == Some(event),
        describes(event, w.streaming, response),
    ensures
        ({
            let code = response.at("error"@).at("code"@);
            let class = response.at("error"@).at("type"@);
            parsed(w).seen.quota_exhausted <==> {
                ||| w.seen.quota_exhausted
                ||| code == Tree::Text("insufficient_quota"@)
                ||| code == Tree::Text("billing_hard_limit_reached"@)
                ||| code == Tree::Text("usage_limit_reached"@)
                ||| class == Tree::Text("insufficient_quota"@)
                ||| class == Tree::Text("billing_hard_limit_reached"@)
                ||| class == Tree::Text("usage_limit_reached"@)
            }
        }),
{
    lemma_calls_keep_the_head(
        noted_head(w.seen, event, w.streaming),
        output_items(event, w.streaming),
    );
}

/// An event ends a response where it is of the type `response.completed`, `response.failed` or
/// `response.incomplete`; a document also where its status is `completed`, `failed` or
/// `incomplete`. Only such an event decides whether the response is a success, which a completed
/// one is, and whether there were too many requests, as the code of its error says. The last one
/// counts.
pub proof fn law_what_ends_a_response(w: Watching, event: Tree, response: Tree)
    requires
        json::json_document(w.data) == Some(event),
        describes(event, w.streaming, response),
    ensures
        ({
            let kind = event.at("type"@);
            let status = event.at("status"@);
            let code = response.at("error"@).at("code"@);
            let after = parsed(w).seen;
            let completes = kind == Tree::Text("response.completed"@) || (!w.streaming && status
                == Tree::Text("completed"@));
            let breaks_off = kind == Tree::Text("response.failed"@) || kind == Tree::Text(
                "response.incomplete"@,
            ) || (!w.streaming && (status == Tree::Text("failed"@) || status == Tree::Text(
                "incomplete"@,
            )));
            &&& after.terminal <==> w.seen.terminal || completes || breaks_off
            &&& completes ==> after.successful
            &&& breaks_off && !completes ==> !after.successful
            &&& !completes && !breaks_off ==> after.successful == w.seen.successful
                && after.rate_limited == w.seen.rate_limited
            &&& completes || breaks_off ==> (after.rate_limited <==> code == Tree::Text(
                "rate_limit_exceeded"@,
            ) || code == Tree::Text("rate_limit_error"@))
        }),
{
    lemma_calls_keep_the_head(
        noted_head(w.seen, event, w.streaming),
        output_items(event, w.streaming),
    );
}

/// A response goes by the last identifier that an event gives it, of 512 bytes at most.
pub proof fn law_last_identifier_counts(w: Watching, event: Tree, response: Tree)
    requires
        json::json_document(w.data) == Some(event),
        describes(event, w.streaming, response),
    ensures
        ({
            let id = response.at("id"@);
            let after = parsed(w).seen;
            if id is Text && id->Text_0.len() > 0 && text::byte_length(id->Text_0) <= 512 {
                after.response_id == Some(id->Text_0)
            } else {
                after.response_id == w.seen.response_id
            }
        }),
{
    lemma_calls_keep_the_head(
        noted_head(w.seen, event, w.streaming),
        output_items(event, w.streaming),
    );
}

/// A tool call: of a function or of a custom tool.
pub open spec fn calls_tool(item: Tree) -> bool {
    item.at("type"@) == Tree::Text("function_call"@) || item.at("type"@) == Tree::Text(
        "custom_tool_call"@,
    )
}

/// What identifies a call is a text of 1 to 512 bytes.
pub open spec fn is_named(item: Tree) -> bool {
    item.at("call_id"@) is Text && item.at("call_id"@)->Text_0.len() > 0 && text::byte_length(
        item.at("call_id"@)->Text_0,
    ) <= 512
}

/// The tool calls among output items are all noted, each once, behind those noted before, and
/// nothing else is. Where one cannot be named, or there are more than 64, the observation is
/// worthless, and in no other case.
pub proof fn law_all_calls_are_noted(seen: Noted, items: Seq<Tree>)
    requires
        seen.calls.len() <= 64,
    ensures
        ({
            let after = noted_calls(seen, items);
            &&& after.valid ==> {
                &&& seen.valid
                &&& forall|i: int|
                    0 <= i < items.len() && calls_tool(#[trigger] items[i]) ==> is_named(items[i])
                        && after.calls.contains(items[i].at("call_id"@)->Text_0)
                &&& seen.calls.is_prefix_of(after.calls)
                &&& after.calls.len() <= 64
                &&& seen.calls.no_duplicates() ==> after.calls.no_duplicates()
                &&& forall|id: Seq<char>| #[trigger]
                    after.calls.contains(id) ==> seen.calls.contains(id) || exists|i: int|
                        0 <= i < items.len() && calls_tool(#[trigger] items[i]) && items[i].at(
                            "call_id"@,
                        ) == Tree::Text(id)
            }
            &&& seen.valid && seen.calls.len() + items.len() <= 64 && (forall|i: int|
                0 <= i < items.len() && calls_tool(#[trigger] items[i]) ==> is_named(items[i]))
                ==> after.valid
        }),
    decreases items.len(),
{
    if items.len() > 0 {
        let item = items[0];
        let rest = items.skip(1);
        let (next, stop) = noted_call(seen, item);
        let after = noted_calls(seen, items);
        assert(forall|i: int| 0 <= i < rest.len() ==> #[trigger] rest[i] == items[i + 1]);
        assert(forall|i: int| 0 < i < items.len() ==> #[trigger] items[i] == rest[i - 1]);
        if !stop {
            law_all_calls_are_noted(next, rest);
            if after.valid {
                assert forall|i: int| 0 <= i < items.len() && calls_tool(#[trigger] items[i]) implies
                    is_named(items[i]) && after.calls.contains(items[i].at("call_id"@)->Text_0) by {
                    if i > 0 {
                        assert(calls_tool(rest[i - 1]));
                    } else {
                        let id = items[0].at("call_id"@)->Text_0;
                        assert(next.calls.contains(id)) by {
                            if !seen.calls.contains(id) {
                                assert(next.calls[seen.calls.len() as int] == id);
                            }
                        }
                        let k = choose|k: int| 0 <= k < next.calls.len() && next.calls[k] == id;
                        assert(after.calls[k] == id);
                    }
                }
                assert forall|id: Seq<char>| #[trigger] after.calls.contains(id) implies
                    seen.calls.contains(id) || exists|i: int|
                    0 <= i < items.len() && calls_tool(#[trigger] items[i]) && items[i].at(
                        "call_id"@,
                    ) == Tree::Text(id) by {
                    if next.calls.contains(id) {
                        if !seen.calls.contains(id) {
                            let k = choose|k: int| 0 <= k < next.calls.len() && next.calls[k] == id;
                            assert(calls_tool(items[0]));
                        }
                    } else {
                        let i = choose|i: int|
                            0 <= i < rest.len() && calls_tool(#[trigger] rest[i]) && rest[i].at(
                                "call_id"@,
                            ) == Tree::Text(id);
                        assert(calls_tool(items[i + 1]));
                    }
                }
            }
        } else {
            assert(after == next);
            assert(!after.valid);
        }
    }
}

/// The output items of an event are the one that it says is done, and then those of the response
/// that it holds.
pub proof fn law_output_items_of_an_event(w: Watching, event: Tree, response: Tree)
    requires
        describes(event, w.streaming, response),
    ensures
        ({
            let items = output_items(event, w.streaming);
            let done = event.at("type"@) == Tree::Text("response.output_item.done"@);
            &&& done ==> items.len() > 0 && items[0] == event.at("item"@)
            &&& response.at("output"@) matches Tree::Array(output) ==> {
                &&& items.len() == output.len() + (if done {
                    1int
                } else {
                    0int
                })
                &&& forall|i: int|
                    0 <= i < output.len() ==> items[i + items.len() - output.len()]
                        == #[trigger] output[i]
            }
            &&& !(response.at("output"@) is Array) ==> items.len() == (if done {
                1int
            } else {
                0int
            })
        }),
{
}

/// Data that is no document makes the observation worthless, unless there is nothing in it or it
/// is the mark at the end of a stream; a document is handed to a recorder.
pub proof fn law_what_can_be_read(w: Watching)
    ensures
        json::json_document(w.data) is None ==> {
            &&& parsed(w).seen.valid <==> w.seen.valid && (text::utf8_of(w.data) matches Some(s)
                && (text::trimmed(s) == Seq::<char>::empty() || text::trimmed(s) == "[DONE]"@))
            &&& parsed(w).events == w.events
            &&& parsed(w).seen == (Noted { valid: parsed(w).seen.valid, ..w.seen })
        },
        json::json_document(w.data) matches Some(event) ==> {
            &&& w.recording ==> parsed(w).events == w.events.push(event)
            &&& !w.recording ==> parsed(w).events == w.events
            &&& parsed(w).seen == noted_calls(
                noted_head(w.seen, event, w.streaming),
                output_items(event, w.streaming),
            )
        },
{
    if let Some(s) = text::utf8_of(w.data) {
        if text::trimmed(s).len() == 0 {
            assert(text::trimmed(s) =~= Seq::<char>::empty());
        }
    }
}

proof fn lemma_line_collected(w: Watching, bytes: Seq<u8>)
    requires
        forall|i: int| 0 <= i < bytes.len() ==> #[trigger] bytes[i] != 10u8,
        w.line.len() + bytes.len() <= event_limit(w.recording),
    ensures
        streamed(w, bytes) == (Watching { line: w.line + bytes, ..w }),
    decreases bytes.len(),
{
    if bytes.len() > 0 {
        let front = bytes.drop_last();
        assert forall|i: int| 0 <= i < front.len() implies #[trigger] front[i] != 10u8 by {
            assert(front[i] == bytes[i]);
        }
        lemma_line_collected(w, front);
        assert((w.line + front).push(bytes.last()) =~= w.line + bytes);
    } else {
        assert(w.line + bytes =~= w.line);
    }
}

proof fn lemma_line_fed(w: Watching, line: Seq<u8>)
    requires
        w.streaming,
        w.line.len() == 0,
        forall|i: int| 0 <= i < line.len() ==> #[trigger] line[i] != 10u8,
        line.len() <= event_limit(w.recording),
    ensures
        fed(w, line.push(10u8)) == stepped(Watching { line, ..w }, 10u8),
{
    lemma_line_collected(w, line);
    assert(w.line + line =~= line);
    assert(line.push(10u8).drop_last() =~= line);
}

proof fn lemma_field_names()
    ensures
        encode_utf8("data:"@).len() == 5,
        encode_utf8("event:"@).len() == 6,
        encode_utf8("data:"@)[0] == 100u8,
        encode_utf8("event:"@)[0] == 101u8,
        forall|i: int| 0 <= i < 5 ==> #[trigger] encode_utf8("data:"@)[i] != 10u8,
        forall|i: int| 0 <= i < 6 ==> #[trigger] encode_utf8("event:"@)[i] != 10u8,
        encode_utf8("data:"@)[4] == 58u8,
        encode_utf8("event:"@)[5] == 58u8,
{
    reveal_strlit("data:");
    reveal_strlit("event:");
    assert(is_ascii_chars("data:"@)) by {
        assert("data:"@ =~= seq!['d', 'a', 't', 'a', ':']);
    }
    assert(is_ascii_chars("event:"@)) by {
        assert("event:"@ =~= seq!['e', 'v', 'e', 'n', 't', ':']);
    }
    is_ascii_chars_encode_utf8("data:"@);
    is_ascii_chars_encode_utf8("event:"@);
}

/// A line of data, with or without a carriage return at its end, is collected as it is, with a
/// line feed behind it, and changes nothing else.
pub proof fn law_data_lines_are_collected(w: Watching, payload: Seq<u8>)
    requires
        w.streaming,
        w.line.len() == 0,
        !w.overflow,
        forall|i: int| 0 <= i < payload.len() ==> #[trigger] payload[i] != 10u8,
        payload.len() > 0 ==> payload.last() != 13u8,
        w.data.len() + payload.len() + 6 <= 262_144,
    ensures
        fed(w, (encode_utf8("data:"@) + payload).push(10u8)) == (Watching {
            data: (w.data + payload).push(10u8),
            ..w
        }),
        fed(w, (encode_utf8("data:"@) + payload).push(13u8).push(10u8)) == (Watching {
            data: (w.data + payload).push(10u8),
            ..w
        }),
{
    lemma_field_names();
    let name = encode_utf8("data:"@);
    let other = encode_utf8("event:"@);
    let line = name + payload;
    assert forall|i: int| 0 <= i < line.len() implies #[trigger] line[i] != 10u8 by {
        if i < 5 {
            assert(line[i] == name[i]);
        } else {
            assert(line[i] == payload[i - 5]);
        }
    }
    lemma_line_fed(w, line);
    lemma_line_fed(w, line.push(13u8));
    assert(line.push(13u8).drop_last() =~= line);
    assert(line.last() != 13u8) by {
        if payload.len() == 0 {
            assert(line.last() == name[4]);
        } else {
            assert(line.last() == payload.last());
        }
    }
    assert(line[0] == name[0]);
    assert(!other.is_prefix_of(line)) by {
        if other.is_prefix_of(line) {
            assert(line[0] == other[0]);
        }
    }
    assert(name.is_prefix_of(line)) by {
        assert(line.take(5) =~= name);
        assert(name =~= line.subrange(0, name.len() as int));
    }
    assert(line.skip(5) =~= payload);
    assert(w.line =~= Seq::empty());
}

/// An empty line ends an event: what was collected is read, unless it was too large, nothing of
/// it stays, and where its name was one that ends a response and there was any, the response is
/// over.
pub proof fn law_empty_line_ends_an_event(w: Watching)
    requires
        w.streaming,
        w.line.len() == 0,
    ensures
        ({
            let after = fed(w, seq![10u8]);
            let read = if w.overflow {
                w
            } else {
                parsed(w)
            };
            &&& after.data.len() == 0 && after.line.len() == 0 && !after.overflow
                && !after.named_terminal
            &&& after.seen == (Noted { terminal: after.seen.terminal, ..read.seen })
            &&& after.seen.terminal <==> read.seen.terminal || (w.named_terminal && (w.overflow
                || w.data.len() > 0))
            &&& after.events == read.events
        }),
{
    let none = Seq::<u8>::empty();
    lemma_line_fed(w, none);
    assert(none.push(10u8) =~= seq![10u8]);
    assert(Watching { line: none, ..w } == w) by {
        assert(w.line =~= none);
    }
}

/// The name of an event is that of one that ends a response where it is, without white space
/// around it, `response.completed`, `response.failed` or `response.incomplete`.
pub proof fn law_event_names(w: Watching, value: Seq<u8>)
    requires
        w.streaming,
        w.line.len() == 0,
        forall|i: int| 0 <= i < value.len() ==> #[trigger] value[i] != 10u8,
        value.len() > 0 ==> value.last() != 13u8,
        value.len() + 6 <= 262_144,
    ensures
        fed(w, (encode_utf8("event:"@) + value).push(10u8)) == (Watching {
            named_terminal: text::utf8_of(value) matches Some(name) && (text::trimmed(name)
                == "response.completed"@ || text::trimmed(name) == "response.failed"@
                || text::trimmed(name) == "response.incomplete"@),
            ..w
        }),
{
    lemma_field_names();
    let name = encode_utf8("event:"@);
    let line = name + value;
    assert forall|i: int| 0 <= i < line.len() implies #[trigger] line[i] != 10u8 by {
        if i < 6 {
            assert(line[i] == name[i]);
        } else {
            assert(line[i] == value[i - 6]);
        }
    }
    lemma_line_fed(w, line);
    assert(line.last() != 13u8) by {
        if value.len() == 0 {
            assert(line.last() == name[5]);
        } else {
            assert(line.last() == value.last());
        }
    }
    assert(name.is_prefix_of(line)) by {
        assert(name =~= line.subrange(0, name.len() as int));
    }
    assert(line.skip(6) =~= value);
    assert(w.line =~= Seq::empty());
}

/// A line that is neither data nor the name of an event says nothing.
pub proof fn law_other_lines_say_nothing(w: Watching, line: Seq<u8>)
    requires
        w.streaming,
        w.line.len() == 0,
        forall|i: int| 0 <= i < line.len() ==> #[trigger] line[i] != 10u8,
        0 < line.len() <= 262_144,
        line.last() != 13u8,
        !encode_utf8("data:"@).is_prefix_of(line),
        !encode_utf8("event:"@).is_prefix_of(line),
    ensures
        fed(w, line.push(10u8)) == w,
{
    lemma_line_fed(w, line);
    assert(w.line =~= Seq::empty());
}

/// A line, or the data of one event, of more than 256 kibibytes makes the observation worthless,
/// for a recorder one of more than four mebibytes; so does a document. Nothing smaller does.
pub proof fn law_what_is_too_large(w: Watching, bytes: Seq<u8>, byte: u8)
    ensures
        ({
            let largest: int = if w.recording {
                4_194_304
            } else {
                262_144
            };
            &&& w.streaming && byte != 10u8 && w.line.len() >= largest ==> !fed(
                w,
                seq![byte],
            ).seen.valid
            &&& w.streaming && byte != 10u8 && w.line.len() < largest ==> fed(w, seq![byte])
                == (Watching { line: w.line.push(byte), ..w })
            &&& !w.streaming && w.data.len() + bytes.len() > largest ==> !concluded(
                fed(w, bytes),
            ).seen.valid
            &&& !w.streaming && w.data.len() + bytes.len() <= largest ==> fed(w, bytes)
                == (Watching { data: w.data + bytes, ..w })
        }),
{
    let one = seq![byte];
    assert(one.drop_last() =~= Seq::empty());
    assert(streamed(w, one.drop_last()) == w);
    assert(one.last() == byte);
}

/// A text is remembered where it has 1 to 512 bytes.
pub proof fn law_what_is_remembered(t: Tree)
    ensures
        bounded(t) is Some <==> t is Text && t->Text_0.len() > 0 && text::byte_length(t->Text_0)
            <= 512,
        bounded(t) matches Some(s) ==> t == Tree::Text(s),
{
}

proof fn lemma_added(items: Seq<ItemView>, start: nat)
    ensures
        added_items(items, start).len() == 0 <==> forall|k: int|
            0 <= k < items.len() ==> (#[trigger] items[k]).index < start,
        added_items(items, start).len() > 0 ==> exists|k: int|
            0 <= k < items.len() && #[trigger] items[k] == added_items(items, start).last()
                && items[k].index >= start && forall|j: int|
                k < j < items.len() ==> (#[trigger] items[j]).index < start,
        forall|k: int|
            0 <= k < items.len() && (#[trigger] items[k]).index >= start ==> added_items(
                items,
                start,
            ).contains(items[k]),
        forall|i: int|
            0 <= i < added_items(items, start).len() ==> items.contains(
                #[trigger] added_items(items, start)[i],
            ) && added_items(items, start)[i].index >= start,
    decreases items.len(),
{
    reveal(Seq::filter);
    if items.len() > 0 {
        let front = items.drop_last();
        let rest = added_items(front, start);
        let all = added_items(items, start);
        let end = items.len() - 1;
        lemma_added(front, start);
        assert(items[end] == items.last());
        assert(forall|k: int| 0 <= k < end ==> #[trigger] items[k] == front[k]);
        assert(forall|i: int| 0 <= i < rest.len() ==> #[trigger] all[i] == rest[i]);
        if items.last().index >= start {
            assert(all == rest.push(items.last()));
            assert(all[rest.len() as int] == items.last());
            assert(all.last() == items[end]);
        } else {
            assert(all == rest);
            if rest.len() > 0 {
                let k = choose|k: int|
                    0 <= k < front.len() && #[trigger] front[k] == rest.last() && front[k].index
                        >= start && forall|j: int|
                        k < j < front.len() ==> (#[trigger] front[j]).index < start;
                assert(items[k] == all.last());
                assert forall|j: int| k < j < items.len() implies (#[trigger] items[j]).index
                    < start by {
                    if j < end {
                        assert(front[j].index < start);
                    }
                }
            } else {
                assert forall|k: int| 0 <= k < items.len() implies (#[trigger] items[k]).index
                    < start by {
                    if k < end {
                        assert(front[k].index < start);
                    }
                }
            }
        }
        assert forall|k: int| 0 <= k < items.len() && (#[trigger] items[k]).index >= start implies
            all.contains(items[k]) by {
            if k < end {
                assert(rest.contains(front[k]));
                let i = choose|i: int| 0 <= i < rest.len() && rest[i] == front[k];
                assert(all[i] == items[k]);
            }
        }
        assert forall|i: int| 0 <= i < all.len() implies items.contains(#[trigger] all[i])
            && all[i].index >= start by {
            if i < rest.len() {
                assert(front.contains(rest[i]));
                let k = choose|k: int| 0 <= k < front.len() && front[k] == rest[i];
                assert(items[k] == all[i]);
            }
        }
    }
}

/// A request continues the last turn from a position on: it names that turn's response and says
/// all that is new, or its input begins with that turn's.
pub open spec fn continues_from(e: EvidenceView, prior: SignalsView, start: nat) -> bool {
    if e.previous is Some && e.previous == prior.output.response_id {
        start == 0
    } else {
        e.prefixes.contains((prior.input.length, prior.input.hash)) && start == prior.input.length
    }
}

/// The item at a place is the last that a request adds.
pub open spec fn is_last_added(e: EvidenceView, start: nat, k: int) -> bool {
    &&& 0 <= k < e.items.len() && e.items[k].index >= start
    &&& forall|j: int| k < j < e.items.len() ==> (#[trigger] e.items[j]).index < start
}

/// Work counts as the user's or as a tool's only within five minutes of a turn that was seen to
/// its end, only where it continues that turn, and by no more than 64 items.
pub proof fn law_when_work_is_recognised(e: EvidenceView, prior: SignalsView, now: u128)
    requires
        kind_of(e, prior, now) != Kind::Unknown,
    ensures
        prior.output.valid,
        prior.finished matches Some(finished) && now <= finished + 300_000_000_000,
        exists|start: nat| #[trigger]
            continues_from(e, prior, start) && e.length <= start + 64,
{
    let start = continues_at(e, prior)->0;
    assert(continues_from(e, prior, start));
}

/// What a request adds is the user's work where the last item is the user's, and a tool's where
/// the last one is an output, every output answers a call of that turn and no item is the user's.
/// Otherwise nothing is known of it.
pub proof fn law_whose_work_it_is(
    e: EvidenceView,
    prior: SignalsView,
    now: u128,
    start: nat,
    last: int,
)
    requires
        prior.output.valid,
        prior.finished is Some,
        now <= prior.finished->0 + 300_000_000_000,
        continues_from(e, prior, start),
        e.length <= start + 64,
        is_last_added(e, start, last),
    ensures
        ({
            let kind = kind_of(e, prior, now);
            &&& kind == Kind::User <==> e.items[last].user
            &&& kind == Kind::Tool <==> e.items[last].call is Some && forall|k: int|
                0 <= k < e.items.len() && (#[trigger] e.items[k]).index >= start
                    ==> !e.items[k].user && (e.items[k].call matches Some(id)
                    ==> prior.output.calls.contains(id))
        }),
{
    let added = added_items(e.items, start);
    let calls = prior.output.calls;
    lemma_added(e.items, start);
    assert(e.items[last].index >= start);
    let k = choose|k: int|
        0 <= k < e.items.len() && #[trigger] e.items[k] == added.last() && e.items[k].index >= start
            && forall|j: int| k < j < e.items.len() ==> (#[trigger] e.items[j]).index < start;
    assert(k == last) by {
        if k < last {
            assert(e.items[last].index < start);
        }
        if last < k {
            assert(e.items[k].index < start);
        }
    }
    if answers_only(added, calls) {
        assert forall|k: int| 0 <= k < e.items.len() && (#[trigger] e.items[k]).index >= start implies
            !e.items[k].user && (e.items[k].call matches Some(id) ==> calls.contains(id)) by {
            assert(added.contains(e.items[k]));
            let i = choose|i: int| 0 <= i < added.len() && added[i] == e.items[k];
            assert(answers(added[i], calls));
        }
    }
    if forall|k: int|
        0 <= k < e.items.len() && (#[trigger] e.items[k]).index >= start ==> !e.items[k].user && (
        e.items[k].call matches Some(id) ==> calls.contains(id)) {
        assert forall|i: int| 0 <= i < added.len() implies answers(#[trigger] added[i], calls) by {
            assert(e.items.contains(added[i]));
            let k = choose|k: int| 0 <= k < e.items.len() && e.items[k] == added[i];
            assert(e.items[k].index >= start);
        }
    }
}

/// Of a request's input the last 64 items are remembered, each with its place: whether it is the
/// user's, and which call it answers where it is the output of a function or of a custom tool.
#[verifier::rlimit(40)]
pub proof fn law_what_is_remembered_of_a_request(body: Tree, items: Seq<Tree>, i: int)
    requires
        body.at("input"@) == Tree::Array(items),
    ensures
        ({
            let e = evidence_of(body);
            let kept: int = if items.len() < 64 {
                items.len() as int
            } else {
                64
            };
            let at = items.len() - kept + i;
            let kind = items[at].at("type"@);
            let call = items[at].at("call_id"@);
            let answers = kind == Tree::Text("function_call_output"@) || kind == Tree::Text(
                "custom_tool_call_output"@,
            );
            &&& e.length == items.len()
            &&& e.items.len() == kept && e.prefixes.len() == kept
            &&& 0 <= i < kept ==> {
                &&& e.items[i].index == at && e.prefixes[i].0 == at
                &&& e.items[i].user <==> items[at].at("role"@) == Tree::Text("user"@)
                &&& answers && is_named(items[at]) ==> e.items[i].call == Some(call->Text_0)
                &&& !(answers && is_named(items[at])) ==> e.items[i].call is None
            }
        }),
{
    let e = evidence_of(body);
    let first = first_kept(items.len() as int);
    assert(e.items.len() == items.len() - first && e.prefixes.len() == items.len() - first);
    if 0 <= i < items.len() - first {
        assert(e.items[i] == remembered(items, first + i));
        assert(e.prefixes[i] == ((first + i) as nat, prefix_hash(items, first + i)));
    }
}

/// A request whose input is that of an earlier one and at most 64 items more is recognised as one
/// that continues it.
#[verifier::rlimit(40)]
pub proof fn law_continuations_are_recognised(
    body: Tree,
    next: Tree,
    items: Seq<Tree>,
    more: Seq<Tree>,
    prior: SignalsView,
)
    requires
        body.at("input"@) == Tree::Array(items),
        next.at("input"@) == Tree::Array(items + more),
        1 <= more.len() <= 64,
        prior.input == evidence_of(body),
    ensures
        evidence_of(next).prefixes.contains((evidence_of(body).length, evidence_of(body).hash)),
        evidence_of(next).length == evidence_of(body).length + more.len(),
        exists|start: nat| #[trigger] continues_from(evidence_of(next), prior, start),
{
    let all = items + more;
    let first = first_kept(all.len() as int);
    let e = evidence_of(next);
    let i = items.len() - first;
    assert(item_texts(all).take(items.len() as int) =~= item_texts(items).take(
        items.len() as int,
    ));
    assert(prefix_hash(all, items.len() as int) == prefix_hash(items, items.len() as int));
    assert(e.prefixes.len() == all.len() - first);
    assert(e.prefixes[i] == ((first + i) as nat, prefix_hash(all, first + i)));
    assert(evidence_of(body).hash == prefix_hash(items, items.len() as int));
    assert(evidence_of(body).length == items.len());
    assert(e.prefixes[i] == (evidence_of(body).length, evidence_of(body).hash));
    if e.previous is Some && e.previous == prior.output.response_id {
        assert(continues_from(e, prior, 0));
    } else {
        assert(continues_from(e, prior, prior.input.length));
    }
}

/// The response that a request names is remembered where its name has 1 to 512 bytes; without a
/// list of input items nothing else is.
pub proof fn law_the_response_that_is_named(body: Tree)
    ensures
        ({
            let name = body.at("previous_response_id"@);
            let e = evidence_of(body);
            &&& name is Text && name->Text_0.len() > 0 && text::byte_length(name->Text_0) <= 512
                ==> e.previous == Some(name->Text_0)
            &&& !(name is Text && name->Text_0.len() > 0 && text::byte_length(name->Text_0)
                <= 512) ==> e.previous is None
            &&& !(body.at("input"@) is Array) ==> e.length == 0 && e.items.len() == 0
                && e.prefixes.len() == 0 && e.hash.len() == 0
        }),
{
}

/// At its end a response is worth what was seen only where that is its end too. A document that
/// was not too large is read then; of a stream nothing more is.
pub proof fn law_how_a_response_is_concluded(w: Watching)
    ensures
        ({
            let read = if w.streaming || w.overflow {
                w
            } else {
                parsed(w)
            };
            let after = concluded(w);
            &&& after.seen.valid <==> read.seen.valid && read.seen.terminal
            &&& after.seen == (Noted { valid: after.seen.valid, ..read.seen })
            &&& after.events == read.events
        }),
{
}

} // verus!
