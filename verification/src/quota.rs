//! Shared, bounded quota snapshots. Nothing is asked of the network without demand.
use crate::clock;
use crate::clock::saturating_second;
use crate::digest;
use crate::digest::digest;
use crate::journal;
use crate::journal::optional_json;
use crate::json;
use crate::json::push_json;
use crate::json::Json;
use crate::json::Quantity;
use crate::json::Tree;
use crate::table;
use crate::table::Table;
use crate::text;
use crate::text::join3;
use crate::text::list_contains;
use crate::text::parse_number;
use crate::text::same;
use vstd::prelude::*;

verus! {

broadcast use {
    vstd::seq_lib::group_seq_properties,
    vstd::map::group_map_axioms,
    vstd::set::group_set_axioms,
};

/// How many accounts are remembered.
pub const MAX_RECORDS: usize = 64;

/// How many queries run at once.
pub const MAX_QUERIES: usize = 4;

/// The largest file with remembered quotas, in bytes.
pub const MAX_FILE: usize = 1_048_576;

/// How long a query by another is waited for.
pub const QUERY_WAIT: u128 = 20_000_000_000;

/// The bits of the doubles 2, 5 and 10.
pub const TWO: u64 = 0x4000_0000_0000_0000;

pub const FIVE: u64 = 0x4014_0000_0000_0000;

pub const TEN: u64 = 0x4024_0000_0000_0000;

/// The order of doubles by their bits: as a number the bits of a double grow with it, and the
/// sign bit turns the order round.
pub open spec fn rank(bits: u64) -> int {
    if bits < 0x8000_0000_0000_0000 {
        bits as int
    } else {
        0x8000_0000_0000_0000 - bits
    }
}

pub fn rank_of(bits: u64) -> (r: i128)
    ensures
        r == rank(bits),
{
    if bits < 0x8000_0000_0000_0000 {
        bits as i128
    } else {
        0x8000_0000_0000_0000i128 - bits as i128
    }
}

/// Why a quota is not known.
#[derive(Debug)]
pub struct Failure {
    pub message: String,
    pub retry_after: Option<u64>,
    pub auth_invalid: bool,
}

/// The model of a `Failure`.
pub struct Trouble {
    pub message: Seq<char>,
    pub retry_after: Option<u64>,
    pub auth_invalid: bool,
}

impl View for Failure {
    type V = Trouble;

    open spec fn view(&self) -> Trouble {
        Trouble {
            message: self.message@,
            retry_after: self.retry_after,
            auth_invalid: self.auth_invalid,
        }
    }
}

impl Failure {
    pub fn copy(&self) -> (r: Failure)
        ensures
            r@ == self@,
    {
        Failure {
            message: self.message.clone(),
            retry_after: self.retry_after,
            auth_invalid: self.auth_invalid,
        }
    }
}

pub open spec fn trouble(f: Option<Failure>) -> Option<Trouble> {
    match f {
        Some(f) => Some(f@),
        None => None,
    }
}

/// What is remembered of an account's quota.
#[derive(Debug)]
pub struct Record {
    pub value: Option<Json>,
    pub failure: Option<Failure>,
    pub retry_at: u64,
    pub failures: usize,
    pub network_queries: u64,
    pub last_query_at: u64,
}

/// The model of a `Record`.
pub struct Quota {
    pub value: Option<Tree>,
    pub failure: Option<Trouble>,
    pub retry_at: u64,
    pub failures: usize,
    pub network_queries: u64,
    pub last_query_at: u64,
}

impl View for Record {
    type V = Quota;

    open spec fn view(&self) -> Quota {
        Quota {
            value: json::tree_option(self.value),
            failure: trouble(self.failure),
            retry_at: self.retry_at,
            failures: self.failures,
            network_queries: self.network_queries,
            last_query_at: self.last_query_at,
        }
    }
}

/// Nothing known of an account's quota.
pub open spec fn no_quota() -> Quota {
    Quota {
        value: None,
        failure: None,
        retry_at: 0,
        failures: 0,
        network_queries: 0,
        last_query_at: 0,
    }
}

impl Record {
    pub fn none() -> (r: Record)
        ensures
            r@ == no_quota(),
    {
        Record {
            value: None,
            failure: None,
            retry_at: 0,
            failures: 0,
            network_queries: 0,
            last_query_at: 0,
        }
    }
}

#[derive(Debug)]
pub struct Cache {
    pub records: Table<String, Record>,
    /// The accounts whose quota is being asked for.
    pub active: Vec<String>,
}

/// The model of a `Cache`.
pub struct Quotas {
    pub records: Map<Seq<char>, Quota>,
    pub active: Seq<Seq<char>>,
}

pub open spec fn quota_views(m: Map<Seq<char>, Record>) -> Map<Seq<char>, Quota> {
    m.map_values(|r: Record| r@)
}

impl View for Cache {
    type V = Quotas;

    open spec fn view(&self) -> Quotas {
        Quotas { records: quota_views(self.records@), active: text::texts(self.active@) }
    }
}

/// Who asks for a quota.
#[derive(Clone, Copy, Debug, PartialEq, Eq, Structural)]
pub enum Freshness {
    Manual,
    Active,
    Candidate,
}

/// The digest under which credentials' quota is remembered.
pub open spec fn key_of(auth: Tree) -> Seq<char> {
    digest::digest_of(seq![json::json_text(auth)])
}

/// The digest under which credentials' quota is remembered.
pub fn key(auth: &Json) -> (r: String)
    ensures
        r@ == key_of(auth@),
{
    let bytes = auth.to_bytes();
    let parts = [bytes.as_slice()];
    let r = digest(&parts);
    assert(parts@.map_values(|p: &[u8]| p@) =~= seq![json::json_text(auth@)]);
    r
}

/// Whether a group of limits is the one that counts.
pub open spec fn is_main(group: Tree) -> bool {
    group.says("name"@, "Codex"@)
}

/// The position of the group of limits that counts.
pub open spec fn main_position(groups: Seq<Tree>) -> Option<int>
    decreases groups.len(),
{
    if groups.len() == 0 {
        None
    } else {
        match main_position(groups.drop_last()) {
            Some(i) => Some(i),
            None => if is_main(groups.last()) {
                Some(groups.len() - 1)
            } else {
                None
            },
        }
    }
}

/// The least of the remaining shares of some windows, by its bits.
pub open spec fn least_share(windows: Seq<Tree>) -> Option<u64>
    decreases windows.len(),
{
    if windows.len() == 0 {
        None
    } else {
        let rest = least_share(windows.drop_last());
        match windows.last().at("remaining_percent"@).bits() {
            Some(bits) => match rest {
                Some(least) => if rank(bits) < rank(least) {
                    Some(bits)
                } else {
                    rest
                },
                None => Some(bits),
            },
            None => rest,
        }
    }
}

/// What is left of a quota, in percent, by its bits.
pub open spec fn remaining_of(value: Tree) -> Option<u64> {
    match value.at("limits"@).items() {
        None => None,
        Some(groups) => match main_position(groups) {
            None => None,
            Some(i) => {
                let main = groups[i];
                if main.is("limit_reached"@, true) || main.is("allowed"@, false) || value.is(
                    "spend_control_reached"@,
                    true,
                ) {
                    Some(0)
                } else {
                    match main.at("windows"@).items() {
                        Some(windows) => least_share(windows),
                        None => None,
                    }
                }
            },
        },
    }
}

/// Whether something is left and it is no more than a share.
pub open spec fn at_most(left: Option<u64>, share: u64) -> bool {
    left matches Some(bits) && rank(bits) <= rank(share)
}

/// Whether every window of a group is known.
pub open spec fn windows_known(group: Tree) -> bool {
    group.at("windows"@).items() matches Some(windows) && windows.len() > 0 && forall|i: int|
        0 <= i < windows.len() ==> (#[trigger] windows[i]).at("remaining_percent"@) is Number
}

/// Whether an account with this quota can take over.
pub open spec fn eligible_quota(value: Tree) -> bool {
    &&& !value.is("partial"@, true)
    &&& (remaining_of(value) matches Some(bits) && rank(bits) > rank(FIVE))
    &&& (value.at("limits"@).items() matches Some(groups) && forall|i: int|
        0 <= i < groups.len() && is_main(#[trigger] groups[i]) ==> windows_known(groups[i]))
}

/// The latest reset among windows of which little is left.
pub open spec fn latest_reset(windows: Seq<Tree>) -> Option<u64>
    decreases windows.len(),
{
    if windows.len() == 0 {
        None
    } else {
        let rest = latest_reset(windows.drop_last());
        let w = windows.last();
        if at_most(w.at("remaining_percent"@).bits(), FIVE) {
            later(rest, w.at("reset_at"@).number())
        } else {
            rest
        }
    }
}

pub open spec fn later(a: Option<u64>, b: Option<u64>) -> Option<u64> {
    match (a, b) {
        (Some(x), Some(y)) => Some(
            if x >= y {
                x
            } else {
                y
            },
        ),
        (Some(x), None) => Some(x),
        (None, y) => y,
    }
}

/// The latest reset among the groups of limits that count.
pub open spec fn groups_reset(groups: Seq<Tree>) -> Option<u64>
    decreases groups.len(),
{
    if groups.len() == 0 {
        None
    } else {
        let rest = groups_reset(groups.drop_last());
        match groups.last().at("windows"@).items() {
            Some(windows) => if is_main(groups.last()) {
                later(rest, latest_reset(windows))
            } else {
                rest
            },
            None => rest,
        }
    }
}

/// How long a quota stays fresh, in seconds.
pub open spec fn interval_of(value: Tree, mode: Freshness) -> u64 {
    match mode {
        Freshness::Manual => 30,
        Freshness::Active => if at_most(remaining_of(value), TEN) {
            120
        } else {
            600
        },
        Freshness::Candidate => 120,
    }
}

/// Whether a quota is so low that it is not asked for before it is reset.
pub open spec fn waits_for_reset(value: Tree, mode: Freshness) -> bool {
    match mode {
        Freshness::Manual => false,
        Freshness::Active => at_most(remaining_of(value), TWO),
        Freshness::Candidate => at_most(remaining_of(value), FIVE),
    }
}

pub open spec fn fetched_at(value: Tree) -> u64 {
    match value.at("fetched_at"@).number() {
        Some(at) => at,
        None => 0,
    }
}

/// When a quota is to be asked for again.
pub open spec fn due_at(value: Tree, mode: Freshness) -> u64 {
    let at = fetched_at(value);
    let next = clock::later_second(at, interval_of(value, mode));
    let reset = if waits_for_reset(value, mode) {
        match (match value.at("limits"@).items() {
            Some(groups) => groups_reset(groups),
            None => None,
        }) {
            Some(reset) => reset,
            None => clock::later_second(at, 900),
        }
    } else {
        0
    };
    if next >= reset {
        next
    } else {
        reset
    }
}

fn find_main(groups: &Vec<Json>) -> (r: Option<usize>)
    ensures
        r is Some <==> main_position(json::trees_of(groups@)) is Some,
        r matches Some(i) ==> i < groups@.len() && main_position(json::trees_of(groups@)) == Some(
            i as int,
        ),
{
    let ghost trees = json::trees_of(groups@);
    let mut found: Option<usize> = None;
    let mut i: usize = 0;
    proof {
        json::lemma_trees_of(groups@);
        assert(trees.take(0) =~= Seq::empty());
    }
    while i < groups.len()
        invariant
            i <= groups@.len(),
            trees == json::trees_of(groups@),
            trees.len() == groups@.len(),
            forall|k: int| 0 <= k < groups@.len() ==> #[trigger] trees[k] == json::tree_of(
                groups@[k],
            ),
            found is Some <==> main_position(trees.take(i as int)) is Some,
            found matches Some(k) ==> k < i && main_position(trees.take(i as int)) == Some(
                k as int,
            ),
        decreases groups@.len() - i,
    {
        assert(trees.take(i + 1).drop_last() == trees.take(i as int));
        assert(trees[i as int] == groups@[i as int]@);
        if found.is_none() && groups[i].says("name", "Codex") {
            found = Some(i);
        }
        i += 1;
    }
    assert(trees.take(trees.len() as int) == trees);
    found
}

fn bits_at(value: &Json, key: &str) -> (r: Option<u64>)
    ensures
        r == value@.at(key@).bits(),
{
    match value.get(key) {
        Some(j) => j.as_bits(),
        None => None,
    }
}

/// What is left of a quota, in percent, by its bits.
pub fn remaining(value: &Json) -> (r: Option<u64>)
    ensures
        r == remaining_of(value@),
{
    let groups = match value.items_at("limits") {
        Some(groups) => groups,
        None => return None,
    };
    let main = match find_main(groups) {
        Some(i) => &groups[i],
        None => return None,
    };
    proof {
        json::lemma_trees_of(groups@);
    }
    if main.is("limit_reached", true) || main.is("allowed", false) || value.is(
        "spend_control_reached",
        true,
    ) {
        return Some(0);
    }
    let windows = match main.items_at("windows") {
        Some(windows) => windows,
        None => return None,
    };
    let ghost trees = json::trees_of(windows@);
    let mut least: Option<u64> = None;
    let mut i: usize = 0;
    assert(trees.take(0) =~= Seq::empty());
    while i < windows.len()
        invariant
            i <= windows@.len(),
            trees == json::trees_of(windows@),
            trees.len() == windows@.len(),
            forall|k: int| 0 <= k < windows@.len() ==> #[trigger] trees[k] == windows@[k]@,
            least == least_share(trees.take(i as int)),
        decreases windows@.len() - i,
    {
        assert(trees.take(i + 1).drop_last() == trees.take(i as int));
        assert(trees.take(i + 1).last() == windows@[i as int]@);
        if let Some(bits) = bits_at(&windows[i], "remaining_percent") {
            let less = match least {
                Some(other) => rank_of(bits) < rank_of(other),
                None => true,
            };
            if less {
                least = Some(bits);
            }
        }
        i += 1;
    }
    assert(trees.take(trees.len() as int) == trees);
    least
}

fn is_at_most(left: Option<u64>, share: u64) -> (r: bool)
    ensures
        r == at_most(left, share),
{
    match left {
        Some(bits) => rank_of(bits) <= rank_of(share),
        None => false,
    }
}

fn are_windows_known(group: &Json) -> (r: bool)
    ensures
        r == windows_known(group@),
{
    let windows = match group.items_at("windows") {
        Some(windows) => windows,
        None => return false,
    };
    let ghost trees = json::trees_of(windows@);
    if windows.len() == 0 {
        return false;
    }
    let mut i: usize = 0;
    while i < windows.len()
        invariant
            i <= windows@.len(),
            group@.at("windows"@).items() == Some(trees),
            trees.len() == windows@.len(),
            forall|k: int| 0 <= k < windows@.len() ==> #[trigger] trees[k] == windows@[k]@,
            forall|k: int|
                0 <= k < i ==> (#[trigger] trees[k]).at("remaining_percent"@) is Number,
        decreases windows@.len() - i,
    {
        assert(trees[i as int] == windows@[i as int]@);
        let number = match windows[i].get("remaining_percent") {
            Some(Json::Number(_)) => true,
            _ => false,
        };
        if !number {
            return false;
        }
        i += 1;
    }
    true
}

/// Whether an account with this quota can take over.
pub fn eligible(value: &Json) -> (r: bool)
    ensures
        r == eligible_quota(value@),
{
    if value.is("partial", true) {
        return false;
    }
    let enough = match remaining(value) {
        Some(bits) => rank_of(bits) > rank_of(FIVE),
        None => false,
    };
    if !enough {
        return false;
    }
    let groups = match value.items_at("limits") {
        Some(groups) => groups,
        None => return false,
    };
    let ghost trees = json::trees_of(groups@);
    let mut i: usize = 0;
    while i < groups.len()
        invariant
            i <= groups@.len(),
            value@.at("limits"@).items() == Some(trees),
            trees.len() == groups@.len(),
            forall|k: int| 0 <= k < groups@.len() ==> #[trigger] trees[k] == groups@[k]@,
            forall|k: int|
                0 <= k < i && is_main(#[trigger] trees[k]) ==> windows_known(trees[k]),
        decreases groups@.len() - i,
    {
        assert(trees[i as int] == groups@[i as int]@);
        if groups[i].says("name", "Codex") && !are_windows_known(&groups[i]) {
            assert(is_main(trees[i as int]));
            return false;
        }
        i += 1;
    }
    true
}

fn later_of(a: Option<u64>, b: Option<u64>) -> (r: Option<u64>)
    ensures
        r == later(a, b),
{
    match (a, b) {
        (Some(x), Some(y)) => Some(
            if x >= y {
                x
            } else {
                y
            },
        ),
        (Some(x), None) => Some(x),
        (None, y) => y,
    }
}

fn windows_reset(windows: &Vec<Json>) -> (r: Option<u64>)
    ensures
        r == latest_reset(json::trees_of(windows@)),
{
    let ghost trees = json::trees_of(windows@);
    let mut reset: Option<u64> = None;
    let mut i: usize = 0;
    proof {
        json::lemma_trees_of(windows@);
        assert(trees.take(0) =~= Seq::empty());
    }
    while i < windows.len()
        invariant
            i <= windows@.len(),
            trees == json::trees_of(windows@),
            trees.len() == windows@.len(),
            forall|k: int| 0 <= k < windows@.len() ==> #[trigger] trees[k] == json::tree_of(
                windows@[k],
            ),
            reset == latest_reset(trees.take(i as int)),
        decreases windows@.len() - i,
    {
        assert(trees.take(i + 1).drop_last() == trees.take(i as int));
        assert(trees[i as int] == windows@[i as int]@);
        if is_at_most(bits_at(&windows[i], "remaining_percent"), FIVE) {
            reset = later_of(reset, windows[i].number_at("reset_at"));
        }
        i += 1;
    }
    assert(trees.take(trees.len() as int) == trees);
    reset
}

fn main_reset(groups: &Vec<Json>) -> (r: Option<u64>)
    ensures
        r == groups_reset(json::trees_of(groups@)),
{
    let ghost trees = json::trees_of(groups@);
    let mut reset: Option<u64> = None;
    let mut i: usize = 0;
    proof {
        json::lemma_trees_of(groups@);
        assert(trees.take(0) =~= Seq::empty());
    }
    while i < groups.len()
        invariant
            i <= groups@.len(),
            trees == json::trees_of(groups@),
            trees.len() == groups@.len(),
            forall|k: int| 0 <= k < groups@.len() ==> #[trigger] trees[k] == json::tree_of(
                groups@[k],
            ),
            reset == groups_reset(trees.take(i as int)),
        decreases groups@.len() - i,
    {
        assert(trees.take(i + 1).drop_last() == trees.take(i as int));
        assert(trees[i as int] == groups@[i as int]@);
        if groups[i].says("name", "Codex") {
            if let Some(windows) = groups[i].items_at("windows") {
                reset = later_of(reset, windows_reset(windows));
            }
        }
        i += 1;
    }
    assert(trees.take(trees.len() as int) == trees);
    reset
}

/// When a quota is to be asked for again.
pub fn due(value: &Json, mode: Freshness) -> (r: u64)
    ensures
        r == due_at(value@, mode),
{
    let at: u64 = match value.number_at("fetched_at") {
        Some(at) => at,
        None => 0,
    };
    let left = remaining(value);
    let interval: u64 = match mode {
        Freshness::Manual => 30,
        Freshness::Active => if is_at_most(left, TEN) {
            120
        } else {
            600
        },
        Freshness::Candidate => 120,
    };
    let low = match mode {
        Freshness::Manual => false,
        Freshness::Active => is_at_most(left, TWO),
        Freshness::Candidate => is_at_most(left, FIVE),
    };
    let reset: u64 = if low {
        let latest = match value.items_at("limits") {
            Some(groups) => main_reset(groups),
            None => None,
        };
        match latest {
            Some(reset) => reset,
            None => saturating_second(at, 900),
        }
    } else {
        0
    };
    let next = saturating_second(at, interval);
    if next >= reset {
        next
    } else {
        reset
    }
}

/// What a question for a quota meets.
#[derive(Debug)]
pub enum Lookup {
    /// Another one asks for it right now.
    Wait,
    Failed(Failure),
    Cached(Json),
    /// Too many ask for quotas right now.
    Busy,
    /// It is to be asked for; what comes back is to be handed in.
    Fetch,
}

/// The model of a `Lookup`.
pub enum Found {
    Wait,
    Failed(Trouble),
    Cached(Tree),
    Busy,
    Fetch,
}

impl View for Lookup {
    type V = Found;

    open spec fn view(&self) -> Found {
        match *self {
            Lookup::Wait => Found::Wait,
            Lookup::Failed(f) => Found::Failed(f@),
            Lookup::Cached(j) => Found::Cached(j@),
            Lookup::Busy => Found::Busy,
            Lookup::Fetch => Found::Fetch,
        }
    }
}

/// What is remembered of an account, if it is to be used.
pub open spec fn remembered(q: Quota, mode: Freshness, now: u64) -> Option<Found> {
    if now < q.retry_at && q.failure is Some {
        Some(Found::Failed(q.failure->0))
    } else if q.value matches Some(value) && now < due_at(value, mode) {
        Some(Found::Cached(q.value->0.with("cached"@, Tree::Bool(true))))
    } else {
        None
    }
}

/// What a question for a quota meets.
pub open spec fn lookup(c: Quotas, key: Seq<char>, mode: Freshness, now: u64) -> Found {
    if c.active.contains(key) {
        Found::Wait
    } else if c.records.contains_key(key) && remembered(c.records[key], mode, now) is Some {
        remembered(c.records[key], mode, now)->0
    } else if c.active.len() >= MAX_QUERIES {
        Found::Busy
    } else {
        Found::Fetch
    }
}

/// When the remembered accounts that may be forgotten were last asked for.
pub open spec fn forget_rank(c: Quotas) -> spec_fn(Seq<char>, Quota) -> Option<u128> {
    |k: Seq<char>, q: Quota|
        if c.active.contains(k) {
            None
        } else {
            Some(
                match q.value {
                    Some(value) => fetched_at(value) as u128,
                    None => 0,
                },
            )
        }
}

/// Whether there is room for an account, where the one asked for the longest time ago gives way.
pub open spec fn room_made(c: Quotas, key: Seq<char>, after: Map<Seq<char>, Quota>) -> bool {
    if c.records.dom().len() >= MAX_RECORDS && !c.records.contains_key(key) && exists|k: Seq<char>|
        #[trigger] c.records.contains_key(k) && !c.active.contains(k) {
        exists|k: Seq<char>| #[trigger]
            table::is_least(c.records, forget_rank(c), k) && after == c.records.remove(k)
    } else {
        after == c.records
    }
}

pub open spec fn quota_or_none(m: Map<Seq<char>, Quota>, key: Seq<char>) -> Quota {
    if m.contains_key(key) {
        m[key]
    } else {
        no_quota()
    }
}

pub open spec fn one_more(n: u64) -> u64 {
    if n < u64::MAX {
        (n + 1) as u64
    } else {
        n
    }
}

pub open spec fn one_more_failure(n: usize) -> usize {
    if n < usize::MAX {
        (n + 1) as usize
    } else {
        n
    }
}

/// How long a number of failures in a row is waited out, in seconds.
pub open spec fn pause_after(failures: usize) -> u64 {
    if failures <= 1 {
        60
    } else if failures == 2 {
        300
    } else {
        900
    }
}

/// What is remembered after a failure.
pub open spec fn after_trouble(q: Quota, t: Trouble, now: u64) -> Quota {
    let failures = one_more_failure(q.failures);
    let hint = match t.retry_after {
        Some(hint) => hint,
        None => 0,
    };
    let delay = if pause_after(failures) >= hint {
        pause_after(failures)
    } else {
        hint
    };
    Quota {
        failures,
        retry_at: if t.auth_invalid {
            u64::MAX
        } else {
            clock::later_second(now, delay)
        },
        failure: Some(t),
        network_queries: one_more(q.network_queries),
        last_query_at: now,
        ..q
    }
}

/// What is remembered after an answer.
pub open spec fn after_answer(q: Quota, value: Tree, now: u64) -> Quota {
    Quota {
        value: Some(value.with("cached"@, Tree::Bool(false))),
        network_queries: one_more(q.network_queries),
        last_query_at: now,
        ..no_quota()
    }
}

/// The percent shares that an answer tells of a window.
#[derive(Debug)]
pub struct Share {
    pub used: Json,
    pub remaining: Json,
}

/// The model of a `Share`.
pub struct Split {
    pub used: Tree,
    pub remaining: Tree,
}

impl View for Share {
    type V = Split;

    open spec fn view(&self) -> Split {
        Split { used: self.used@, remaining: self.remaining@ }
    }
}

pub open spec fn split_option(s: Option<Share>) -> Option<Split> {
    match s {
        Some(s) => Some(s@),
        None => None,
    }
}

/// What an answer's headers tell of a window.
#[derive(Debug)]
pub struct Sample {
    pub seconds: u64,
    pub share: Share,
    pub reset_at: Option<u64>,
}

/// The model of a `Sample`.
pub struct Reading {
    pub seconds: u64,
    pub share: Split,
    pub reset_at: Option<u64>,
}

impl View for Sample {
    type V = Reading;

    open spec fn view(&self) -> Reading {
        Reading { seconds: self.seconds, share: self.share@, reset_at: self.reset_at }
    }
}

pub open spec fn window_tree(
    seconds: Tree,
    used: Tree,
    remaining: Tree,
    reset_at: Option<u64>,
) -> Tree {
    Tree::Object(
        Map::empty().insert("seconds"@, seconds).insert("used_percent"@, used).insert(
            "remaining_percent"@,
            remaining,
        ).insert("reset_at"@, journal::optional_number(reset_at)),
    )
}

pub fn window_json(seconds: Json, used: Json, remaining: Json, reset_at: Option<u64>) -> (r: Json)
    ensures
        r@ == window_tree(seconds@, used@, remaining@, reset_at),
{
    let mut r = Json::object();
    r.set("seconds".to_owned(), seconds);
    r.set("used_percent".to_owned(), used);
    r.set("remaining_percent".to_owned(), remaining);
    r.set("reset_at".to_owned(), optional_json(reset_at));
    r
}

pub open spec fn reading_tree(r: Reading) -> Tree {
    window_tree(
        Tree::Number(Quantity::Unsigned(r.seconds)),
        r.share.used,
        r.share.remaining,
        r.reset_at,
    )
}

pub open spec fn header_number(headers: Map<Seq<char>, String>, name: Seq<char>) -> Option<u64> {
    if headers.contains_key(name) {
        text::number_of(headers[name]@)
    } else {
        None
    }
}

/// What an answer's headers tell of the window in a slot, where the share in them is known.
pub open spec fn reading_of(
    headers: Map<Seq<char>, String>,
    slot: Seq<char>,
    share: Option<Split>,
) -> Option<Reading> {
    match (share, header_number(headers, "x-codex-"@ + slot + "-window-minutes"@)) {
        (Some(share), Some(minutes)) => if 0 < minutes && minutes * 60 <= u64::MAX {
            Some(
                Reading {
                    seconds: (minutes * 60) as u64,
                    share,
                    reset_at: header_number(headers, "x-codex-"@ + slot + "-reset-at"@),
                },
            )
        } else {
            None
        },
        _ => None,
    }
}

pub open spec fn listed(r: Option<Reading>) -> Seq<Reading> {
    match r {
        Some(r) => seq![r],
        None => Seq::empty(),
    }
}

/// What an answer's headers tell of both windows.
pub open spec fn readings(
    headers: Map<Seq<char>, String>,
    primary: Option<Split>,
    secondary: Option<Split>,
) -> Seq<Reading> {
    listed(reading_of(headers, "primary"@, primary)) + listed(
        reading_of(headers, "secondary"@, secondary),
    )
}

pub open spec fn same_window(window: Tree, r: Reading) -> bool {
    window.at("seconds"@) == Tree::Number(Quantity::Unsigned(r.seconds))
}

/// The position of the window that a reading is of.
pub open spec fn window_position(windows: Seq<Tree>, r: Reading) -> Option<int>
    decreases windows.len(),
{
    if windows.len() == 0 {
        None
    } else {
        match window_position(windows.drop_last(), r) {
            Some(i) => Some(i),
            None => if same_window(windows.last(), r) {
                Some(windows.len() - 1)
            } else {
                None
            },
        }
    }
}

/// Whether a reading is older than what is known: more is left than is known to be left until
/// the same reset.
pub open spec fn outdated(window: Tree, r: Reading) -> bool {
    &&& window.at("reset_at"@) == journal::optional_number(r.reset_at)
    &&& window.at("remaining_percent"@).bits() matches Some(a)
    &&& r.share.remaining.bits() matches Some(b)
    &&& rank(a) < rank(b)
}

/// The windows with a reading taken into account.
pub open spec fn merged(windows: Seq<Tree>, r: Reading) -> Seq<Tree> {
    match window_position(windows, r) {
        Some(i) => if outdated(windows[i], r) {
            windows
        } else {
            windows.update(i, reading_tree(r))
        },
        None => if windows.len() < 2 {
            windows.push(reading_tree(r))
        } else {
            windows
        },
    }
}

pub open spec fn merged_all(windows: Seq<Tree>, list: Seq<Reading>) -> Seq<Tree>
    decreases list.len(),
{
    if list.len() == 0 {
        windows
    } else {
        merged(merged_all(windows, list.drop_last()), list.last())
    }
}

/// Whether there is a reading of every window.
pub open spec fn covered(windows: Seq<Tree>, list: Seq<Reading>) -> bool {
    windows.len() > 0 && forall|i: int|
        0 <= i < windows.len() ==> is_covered(#[trigger] windows[i], list)
}

pub open spec fn is_covered(window: Tree, list: Seq<Reading>) -> bool {
    exists|k: int| 0 <= k < list.len() && same_window(window, #[trigger] list[k])
}

/// The group of limits with readings taken into account: readings of only some windows can
/// lower what is left, but lift no block.
pub open spec fn group_after(main: Tree, windows: Seq<Tree>, list: Seq<Reading>) -> Tree {
    let next = main.with("windows"@, Tree::Array(merged_all(windows, list)));
    if covered(windows, list) {
        next.with("limit_reached"@, Tree::Bool(false)).with("allowed"@, Tree::Bool(true))
    } else {
        next
    }
}

/// A value with a member of a name: where it had none it is null. Only an object, and null in
/// its place, can have members.
pub open spec fn with_place(t: Tree, key: Seq<char>) -> Tree {
    if t.field(key) is Some {
        t
    } else {
        t.with(key, Tree::Null)
    }
}

/// A quota with readings taken into account. The places where they are looked for are made
/// where they are missing.
pub open spec fn value_after(value: Tree, list: Seq<Reading>, now: u64) -> Tree {
    match value.at("limits"@).items() {
        None => with_place(value, "limits"@),
        Some(groups) => match main_position(groups) {
            None => value,
            Some(i) => match groups[i].at("windows"@).items() {
                None => value.with(
                    "limits"@,
                    Tree::Array(groups.update(i, with_place(groups[i], "windows"@))),
                ),
                Some(windows) => {
                    let next = value.with(
                        "limits"@,
                        Tree::Array(groups.update(i, group_after(groups[i], windows, list))),
                    );
                    if covered(windows, list) {
                        next.with("fetched_at"@, Tree::Number(Quantity::Unsigned(now)))
                    } else {
                        next
                    }
                },
            },
        },
    }
}

/// The quotas with readings of one account taken into account.
pub open spec fn quotas_after(c: Quotas, key: Seq<char>, list: Seq<Reading>, now: u64) -> Quotas {
    if list.len() > 0 && c.records.contains_key(key) && c.records[key].value is Some {
        Quotas {
            records: c.records.insert(
                key,
                Quota {
                    value: Some(value_after(c.records[key].value->0, list, now)),
                    ..c.records[key]
                },
            ),
            ..c
        }
    } else {
        c
    }
}

/// The groups of limits of which those that count are reached.
pub open spec fn reached(groups: Seq<Tree>) -> Seq<Tree> {
    groups.map_values(
        |g: Tree|
            if is_main(g) {
                g.with("limit_reached"@, Tree::Bool(true))
            } else {
                g
            },
    )
}

/// A quota that is used up.
pub open spec fn exhausted(value: Option<Tree>, now: u64) -> Tree {
    match value {
        Some(value) => match value.at("limits"@).items() {
            Some(groups) => value.with("limits"@, Tree::Array(reached(groups))),
            None => with_place(value, "limits"@),
        },
        None => {
            let group = Map::empty().insert("name"@, Tree::Text("Codex"@)).insert(
                "limit_reached"@,
                Tree::Bool(true),
            ).insert("windows"@, Tree::Array(Seq::empty()));
            Tree::Object(
                Map::empty().insert("fetched_at"@, Tree::Number(Quantity::Unsigned(now))).insert(
                    "limits"@,
                    Tree::Array(seq![Tree::Object(group)]),
                ),
            )
        },
    }
}

/// What is remembered of an account that was blocked.
pub open spec fn blocked_quota(q: Quota, auth_invalid: bool, now: u64) -> Quota {
    if auth_invalid {
        Quota {
            failure: Some(
                Trouble { message: "账号认证失效"@, retry_after: None, auth_invalid: true },
            ),
            retry_at: u64::MAX,
            ..q
        }
    } else {
        Quota { value: Some(exhausted(q.value, now)), ..q }
    }
}

pub open spec fn quotas_blocked(c: Quotas, key: Seq<char>, auth_invalid: bool, now: u64) -> Quotas {
    if c.records.dom().len() >= MAX_RECORDS && !c.records.contains_key(key) {
        c
    } else {
        Quotas {
            records: c.records.insert(
                key,
                blocked_quota(quota_or_none(c.records, key), auth_invalid, now),
            ),
            ..c
        }
    }
}

/// The summary of an account's quota.
pub open spec fn status_of(q: Option<Quota>, mode: Freshness) -> Tree {
    let m = Map::<Seq<char>, Tree>::empty();
    match q {
        Some(q) => {
            let next = match q.value {
                Some(value) => if due_at(value, mode) >= q.retry_at {
                    due_at(value, mode)
                } else {
                    q.retry_at
                },
                None => q.retry_at,
            };
            let m = m.insert(
                "quota"@,
                match q.value {
                    Some(value) => value,
                    None => Tree::Null,
                },
            );
            let m = m.insert(
                "error"@,
                match q.failure {
                    Some(f) => Tree::Text(f.message),
                    None => Tree::Null,
                },
            );
            let m = m.insert(
                "network_queries"@,
                Tree::Number(Quantity::Unsigned(q.network_queries)),
            );
            let m = m.insert("last_query_at"@, Tree::Number(Quantity::Unsigned(q.last_query_at)));
            let m = m.insert(
                "auth_invalid"@,
                Tree::Bool(q.failure matches Some(f) && f.auth_invalid),
            );
            Tree::Object(
                m.insert(
                    "next_check_at"@,
                    journal::optional_number(
                        if q.retry_at == u64::MAX {
                            None
                        } else {
                            Some(next)
                        },
                    ),
                ),
            )
        },
        None => {
            let m = m.insert("quota"@, Tree::Null);
            let m = m.insert("error"@, Tree::Null);
            let m = m.insert("auth_invalid"@, Tree::Bool(false));
            Tree::Object(m.insert("next_check_at"@, Tree::Number(Quantity::Unsigned(0))))
        },
    }
}

fn header_value(headers: &Table<String, String>, slot: &str, name: &str) -> (r: Option<u64>)
    requires
        headers.wf(),
    ensures
        r == header_number(headers@, "x-codex-"@ + slot@ + name@),
{
    let key = join3("x-codex-", slot, name);
    match headers.get(&key) {
        Some(value) => parse_number(value),
        None => None,
    }
}

fn push_sample(
    out: &mut Vec<Sample>,
    headers: &Table<String, String>,
    slot: &str,
    share: Option<Share>,
)
    requires
        headers.wf(),
    ensures
        sample_views(final(out)@) == sample_views(old(out)@) + listed(
            reading_of(headers@, slot@, split_option(share)),
        ),
{
    if let Some(share) = share {
        if let Some(minutes) = header_value(headers, slot, "-window-minutes") {
            if minutes > 0 && minutes <= u64::MAX / 60 {
                let sample = Sample {
                    seconds: minutes * 60,
                    share,
                    reset_at: header_value(headers, slot, "-reset-at"),
                };
                out.push(sample);
                assert(sample_views(out@) =~= sample_views(old(out)@).push(sample@));
            }
        }
    }
}

pub open spec fn sample_views(list: Seq<Sample>) -> Seq<Reading> {
    list.map_values(|s: Sample| s@)
}

fn is_same_window(window: &Json, sample: &Sample) -> (r: bool)
    ensures
        r == same_window(window@, sample@),
{
    match window.number_at("seconds") {
        Some(seconds) => seconds == sample.seconds,
        None => false,
    }
}

fn is_outdated(window: &Json, sample: &Sample) -> (r: bool)
    ensures
        r == outdated(window@, sample@),
{
    let same_reset = match sample.reset_at {
        Some(at) => match window.number_at("reset_at") {
            Some(other) => other == at,
            None => false,
        },
        None => window.lacks("reset_at"),
    };
    if !same_reset {
        return false;
    }
    match (bits_at(window, "remaining_percent"), sample.share.remaining.as_bits()) {
        (Some(a), Some(b)) => rank_of(a) < rank_of(b),
        _ => false,
    }
}

fn sample_json(sample: &Sample) -> (r: Json)
    ensures
        r@ == reading_tree(sample@),
{
    window_json(
        Json::unsigned(sample.seconds),
        sample.share.used.copy(),
        sample.share.remaining.copy(),
        sample.reset_at,
    )
}

fn find_window(windows: &Vec<Json>, sample: &Sample) -> (r: Option<usize>)
    ensures
        r is Some <==> window_position(json::trees_of(windows@), sample@) is Some,
        r matches Some(i) ==> i < windows@.len() && window_position(
            json::trees_of(windows@),
            sample@,
        ) == Some(i as int),
{
    let ghost trees = json::trees_of(windows@);
    let mut found: Option<usize> = None;
    let mut i: usize = 0;
    proof {
        json::lemma_trees_of(windows@);
        assert(trees.take(0) =~= Seq::empty());
    }
    while i < windows.len()
        invariant
            i <= windows@.len(),
            trees == json::trees_of(windows@),
            trees.len() == windows@.len(),
            forall|k: int| 0 <= k < windows@.len() ==> #[trigger] trees[k] == json::tree_of(
                windows@[k],
            ),
            found is Some <==> window_position(trees.take(i as int), sample@) is Some,
            found matches Some(k) ==> k < i && window_position(trees.take(i as int), sample@)
                == Some(k as int),
        decreases windows@.len() - i,
    {
        assert(trees.take(i + 1).drop_last() == trees.take(i as int));
        assert(trees[i as int] == windows@[i as int]@);
        if found.is_none() && is_same_window(&windows[i], sample) {
            found = Some(i);
        }
        i += 1;
    }
    assert(trees.take(trees.len() as int) == trees);
    found
}

/// Replaces one value of a list.
fn replace_json(items: &mut Vec<Json>, i: usize, item: Json)
    requires
        i < old(items)@.len(),
    ensures
        json::trees_of(final(items)@) == json::trees_of(old(items)@).update(i as int, item@),
{
    proof {
        json::lemma_trees_of(items@);
    }
    items.set(i, item);
    proof {
        json::lemma_trees_of(items@);
        assert(json::trees_of(items@) =~= json::trees_of(old(items)@).update(i as int, item@));
    }
}

fn merge(windows: &mut Vec<Json>, sample: &Sample)
    ensures
        json::trees_of(final(windows)@) == merged(json::trees_of(old(windows)@), sample@),
{
    proof {
        json::lemma_trees_of(windows@);
    }
    match find_window(windows, sample) {
        Some(i) => {
            if !is_outdated(&windows[i], sample) {
                replace_json(windows, i, sample_json(sample));
            }
        },
        None => {
            if windows.len() < 2 {
                push_json(windows, sample_json(sample));
            }
        },
    }
}

/// A copy of a list of values.
pub fn copy_list(items: &Vec<Json>) -> (r: Vec<Json>)
    ensures
        json::trees_of(r@) == json::trees_of(items@),
{
    let mut out: Vec<Json> = Vec::new();
    let mut i: usize = 0;
    assert(items@.take(0) =~= Seq::empty());
    while i < items.len()
        invariant
            i <= items@.len(),
            json::trees_of(out@) == json::trees_of(items@.take(i as int)),
        decreases items@.len() - i,
    {
        assert(items@.take(i + 1).drop_last() == items@.take(i as int));
        push_json(&mut out, items[i].copy());
        i += 1;
    }
    assert(items@.take(items@.len() as int) == items@);
    out
}

fn is_window_covered(window: &Json, samples: &Vec<Sample>) -> (r: bool)
    ensures
        r == is_covered(window@, sample_views(samples@)),
{
    let ghost views = sample_views(samples@);
    let mut i: usize = 0;
    while i < samples.len()
        invariant
            i <= samples@.len(),
            views == sample_views(samples@),
            forall|k: int| 0 <= k < i ==> !same_window(window@, #[trigger] views[k]),
        decreases samples@.len() - i,
    {
        assert(views[i as int] == samples@[i as int]@);
        if is_same_window(window, &samples[i]) {
            return true;
        }
        i += 1;
    }
    false
}

fn are_covered(windows: &Vec<Json>, samples: &Vec<Sample>) -> (r: bool)
    ensures
        r == covered(json::trees_of(windows@), sample_views(samples@)),
{
    let ghost trees = json::trees_of(windows@);
    proof {
        json::lemma_trees_of(windows@);
    }
    if windows.len() == 0 {
        return false;
    }
    let mut i: usize = 0;
    while i < windows.len()
        invariant
            i <= windows@.len(),
            trees == json::trees_of(windows@),
            trees.len() == windows@.len(),
            forall|k: int| 0 <= k < windows@.len() ==> #[trigger] trees[k] == json::tree_of(
                windows@[k],
            ),
            forall|k: int|
                0 <= k < i ==> is_covered(#[trigger] trees[k], sample_views(samples@)),
        decreases windows@.len() - i,
    {
        assert(trees[i as int] == windows@[i as int]@);
        if !is_window_covered(&windows[i], samples) {
            return false;
        }
        i += 1;
    }
    true
}

/// A copy of a value with a member of a name.
fn placed(value: &Json, key: &str) -> (r: Json)
    ensures
        r@ == with_place(value@, key@),
{
    let mut r = value.copy();
    if value.get(key).is_none() {
        r.put(key, Json::Null);
    }
    r
}

/// A quota with samples taken into account.
fn observe_value(value: &Json, samples: &Vec<Sample>, now: u64) -> (r: Json)
    ensures
        r@ == value_after(value@, sample_views(samples@), now),
{
    let groups = match value.items_at("limits") {
        Some(groups) => groups,
        None => return placed(value, "limits"),
    };
    let at: usize = match find_main(groups) {
        Some(i) => i,
        None => return value.copy(),
    };
    let windows = match groups[at].items_at("windows") {
        Some(windows) => windows,
        None => {
            let mut all = copy_list(groups);
            proof {
                json::lemma_trees_of(all@);
                json::lemma_trees_of(groups@);
            }
            replace_json(&mut all, at, placed(&groups[at], "windows"));
            let mut r = value.copy();
            r.put("limits", Json::Array(all));
            return r;
        },
    };
    let complete = are_covered(windows, samples);
    let ghost list = sample_views(samples@);
    let ghost before = json::trees_of(windows@);
    let mut next = copy_list(windows);
    let mut i: usize = 0;
    assert(list.take(0) =~= Seq::empty());
    while i < samples.len()
        invariant
            i <= samples@.len(),
            list == sample_views(samples@),
            json::trees_of(next@) == merged_all(before, list.take(i as int)),
        decreases samples@.len() - i,
    {
        assert(list.take(i + 1).drop_last() == list.take(i as int));
        assert(list.take(i + 1).last() == samples@[i as int]@);
        merge(&mut next, &samples[i]);
        i += 1;
    }
    assert(list.take(list.len() as int) == list);
    let mut main = groups[at].copy();
    main.put("windows", Json::Array(next));
    if complete {
        main.put("limit_reached", Json::Bool(false));
        main.put("allowed", Json::Bool(true));
    }
    let mut all = copy_list(groups);
    proof {
        json::lemma_trees_of(all@);
        json::lemma_trees_of(groups@);
    }
    replace_json(&mut all, at, main);
    let mut r = value.copy();
    r.put("limits", Json::Array(all));
    if complete {
        r.put("fetched_at", Json::unsigned(now));
    }
    r
}

/// A quota that is used up.
fn exhaust(value: &Option<Json>, now: u64) -> (r: Json)
    ensures
        r@ == exhausted(json::tree_option(*value), now),
{
    let value = match value {
        Some(value) => value,
        None => {
            let mut group = Json::object();
            group.set("name".to_owned(), Json::Text("Codex".to_owned()));
            group.set("limit_reached".to_owned(), Json::Bool(true));
            group.set("windows".to_owned(), Json::Array(Vec::new()));
            let mut groups: Vec<Json> = Vec::new();
            push_json(&mut groups, group);
            assert(json::trees_of(groups@) =~= seq![group@]);
            let mut r = Json::object();
            r.set("fetched_at".to_owned(), Json::unsigned(now));
            r.set("limits".to_owned(), Json::Array(groups));
            return r;
        },
    };
    let groups = match value.items_at("limits") {
        Some(groups) => groups,
        None => return placed(value, "limits"),
    };
    let ghost trees = json::trees_of(groups@);
    let mut out: Vec<Json> = Vec::new();
    let mut i: usize = 0;
    assert(json::trees_of(out@) =~= reached(trees).take(0));
    while i < groups.len()
        invariant
            i <= groups@.len(),
            trees == json::trees_of(groups@),
            trees.len() == groups@.len(),
            forall|k: int| 0 <= k < groups@.len() ==> #[trigger] trees[k] == groups@[k]@,
            json::trees_of(out@) == reached(trees).take(i as int),
        decreases groups@.len() - i,
    {
        assert(trees[i as int] == groups@[i as int]@);
        let mut group = groups[i].copy();
        if group.says("name", "Codex") {
            group.put("limit_reached", Json::Bool(true));
        }
        push_json(&mut out, group);
        assert(reached(trees).take(i + 1) =~= reached(trees).take(i as int).push(
            reached(trees)[i as int],
        ));
        i += 1;
    }
    assert(reached(trees).take(trees.len() as int) =~= reached(trees));
    let mut r = value.copy();
    r.put("limits", Json::Array(out));
    r
}

/// The elements of a list that are not the one given.
pub open spec fn without(list: Seq<Seq<char>>, s: Seq<char>) -> Seq<Seq<char>> {
    list.filter(|t: Seq<char>| t != s)
}

/// Whether quotas of some accounts in a file of some bytes are taken over.
pub open spec fn is_restorable(size: usize, records: nat) -> bool {
    size <= MAX_FILE && records <= MAX_RECORDS
}

/// The quotas after a question for one: who is told to fetch it is asking for it from then on.
pub open spec fn after_question(c: Quotas, key: Seq<char>, mode: Freshness, now: u64) -> Quotas {
    if lookup(c, key, mode, now) is Fetch {
        Quotas { active: c.active.push(key), ..c }
    } else {
        c
    }
}

impl Cache {
    pub open spec fn wf(&self) -> bool {
        self.records.wf()
    }

    pub fn new() -> (r: Cache)
        ensures
            r.wf(),
            r@ == (Quotas { records: Map::empty(), active: Seq::empty() }),
    {
        let r = Cache { records: Table::new(), active: Vec::new() };
        assert(r@.records =~= Map::empty());
        assert(r@.active =~= Seq::empty());
        r
    }

    /// Takes over the quotas of an earlier run from a file of `size` bytes; nothing where there
    /// is too much.
    pub fn restore(records: Table<String, Record>, size: usize) -> (r: Option<Cache>)
        requires
            records.wf(),
        ensures
            r is Some <==> is_restorable(size, records@.dom().len()),
            r matches Some(cache) ==> cache.wf() && cache@ == (Quotas {
                records: quota_views(records@),
                active: Seq::empty(),
            }),
    {
        if size > MAX_FILE || records.len() > MAX_RECORDS {
            return None;
        }
        let r = Cache { records, active: Vec::new() };
        assert(r@.active =~= Seq::empty());
        Some(r)
    }

    /// Asks for an account's quota; one who is told to fetch it is expected to hand in what
    /// comes back.
    pub fn get(&mut self, key: &String, mode: Freshness, now: u64) -> (r: Lookup)
        requires
            old(self).wf(),
        ensures
            final(self).wf(),
            r@ == lookup(old(self)@, key@, mode, now),
            final(self)@ == after_question(old(self)@, key@, mode, now),
    {
        if list_contains(&self.active, key) {
            return Lookup::Wait;
        }
        if let Some(record) = self.records.get(key) {
            if now < record.retry_at {
                if let Some(failure) = &record.failure {
                    return Lookup::Failed(failure.copy());
                }
            }
            if let Some(value) = &record.value {
                if now < due(value, mode) {
                    let mut result = value.copy();
                    result.put("cached", Json::Bool(true));
                    return Lookup::Cached(result);
                }
            }
        }
        if self.active.len() >= MAX_QUERIES {
            return Lookup::Busy;
        }
        let ghost before = self@.active;
        self.active.push(key.clone());
        assert(text::texts(self.active@) =~= before.push(key@));
        Lookup::Fetch
    }

    /// Makes room for an account.
    fn make_room(&mut self, key: &String)
        requires
            old(self).wf(),
        ensures
            final(self).wf(),
            final(self)@.active == old(self)@.active,
            room_made(old(self)@, key@, final(self)@.records),
    {
        let ghost before = self@;
        let ghost raw = self.records@;
        assert(before.records.dom() =~= raw.dom());
        if self.records.len() < MAX_RECORDS || self.records.has(key) {
            return;
        }
        let active = &self.active;
        let test = |k: &String, record: &Record| -> (at: Option<u128>)
            ensures
                at == (if text::texts(active@).contains(k@) {
                    None::<u128>
                } else {
                    Some(
                        match record@.value {
                            Some(value) => fetched_at(value) as u128,
                            None => 0,
                        },
                    )
                }),
            {
                if list_contains(active, k) {
                    None
                } else {
                    match &record.value {
                        Some(value) => match value.number_at("fetched_at") {
                            Some(at) => Some(at as u128),
                            None => Some(0),
                        },
                        None => Some(0),
                    }
                }
            };
        let ghost rank = |k: Seq<char>, record: Record| (forget_rank(before))(k, record@);
        let oldest = self.records.least(test, Ghost(rank));
        match oldest {
            Some(i) => {
                let ghost k = self.records.entries@[i as int].0@;
                proof {
                    lemma_forget_view(raw, before, k);
                    table::lemma_mapped_remove(raw, |r: Record| r@, k);
                    assert(before.records.contains_key(k));
                }
                let _ = self.records.remove_at(i);
            },
            None => {
                proof {
                    assert forall|k: Seq<char>| #[trigger]
                        before.records.contains_key(k) implies before.active.contains(k) by {
                        assert(raw.contains_key(k));
                    }
                }
            },
        }
    }

    /// Hands in what came back for an account.
    pub fn complete(&mut self, key: &String, now: u64, result: Result<Json, Failure>) -> (r: Result<
        Json,
        Failure,
    >)
        requires
            old(self).wf(),
        ensures
            final(self).wf(),
            final(self)@.active == without(old(self)@.active, key@),
            exists|m: Map<Seq<char>, Quota>| #[trigger]
                room_made(old(self)@, key@, m) && final(self)@.records == m.insert(
                    key@,
                    match result {
                        Ok(value) => after_answer(quota_or_none(m, key@), value@, now),
                        Err(f) => after_trouble(quota_or_none(m, key@), f@, now),
                    },
                ),
            match result {
                Ok(value) => r matches Ok(v) && v@ == value@.with("cached"@, Tree::Bool(false)),
                Err(f) => r matches Err(e) && e@ == f@,
            },
    {
        self.make_room(key);
        let ghost m = self@.records;
        let ghost raw = self.records@;
        let record = match self.records.remove(key) {
            Some(record) => record,
            None => Record::none(),
        };
        assert(record@ == quota_or_none(m, key@));
        let queries = record.network_queries.saturating_add(1);
        let (next, r) = match result {
            Ok(value) => {
                let mut value = value;
                value.put("cached", Json::Bool(false));
                let mut next = Record::none();
                next.value = Some(value.copy());
                next.network_queries = queries;
                next.last_query_at = now;
                (next, Ok(value))
            },
            Err(failure) => {
                let mut next = record;
                next.failures = next.failures.saturating_add(1);
                let pause: u64 = if next.failures <= 1 {
                    60
                } else if next.failures == 2 {
                    300
                } else {
                    900
                };
                let hint: u64 = match failure.retry_after {
                    Some(hint) => hint,
                    None => 0,
                };
                let delay = if pause >= hint {
                    pause
                } else {
                    hint
                };
                next.retry_at =
                if failure.auth_invalid {
                    u64::MAX
                } else {
                    saturating_second(now, delay)
                };
                next.failure = Some(failure.copy());
                next.network_queries = queries;
                next.last_query_at = now;
                (next, Err(failure))
            },
        };
        proof {
            table::lemma_mapped_remove(raw, |r: Record| r@, key@);
            table::lemma_mapped_insert(self.records@, |r: Record| r@, key@, next);
            assert(m.remove(key@).insert(key@, next@) =~= m.insert(key@, next@));
        }
        self.records.insert(key.clone(), next);
        self.end_query(key);
        r
    }

    fn end_query(&mut self, key: &String)
        requires
            old(self).wf(),
        ensures
            final(self).wf(),
            final(self)@ == (Quotas { active: without(old(self)@.active, key@), ..old(self)@ }),
    {
        let ghost all = self@.active;
        let ghost p = |t: Seq<char>| t != key@;
        let mut out: Vec<String> = Vec::new();
        let mut i: usize = 0;
        proof {
            reveal(Seq::filter);
            assert(all.take(0) =~= Seq::empty());
            assert(text::texts(out@) =~= Seq::empty());
        }
        while i < self.active.len()
            invariant
                i <= self.active@.len(),
                *self == *old(self),
                all == self@.active,
                p == (|t: Seq<char>| t != key@),
                text::texts(out@) == all.take(i as int).filter(p),
            decreases self.active@.len() - i,
        {
            proof {
                reveal(Seq::filter);
                assert(all.take(i + 1).drop_last() == all.take(i as int));
            }
            if !same(&self.active[i], key) {
                let ghost before = text::texts(out@);
                out.push(self.active[i].clone());
                assert(text::texts(out@) =~= before.push(all[i as int]));
            }
            i += 1;
        }
        assert(all.take(all.len() as int) == all);
        self.active = out;
    }

    /// Takes an answer's headers into account; the shares are those in the headers of the
    /// primary and the secondary window.
    pub fn observe(
        &mut self,
        key: &String,
        headers: &Table<String, String>,
        primary: Option<Share>,
        secondary: Option<Share>,
        now: u64,
    )
        requires
            old(self).wf(),
            headers.wf(),
        ensures
            final(self).wf(),
            final(self)@ == quotas_after(
                old(self)@,
                key@,
                readings(headers@, split_option(primary), split_option(secondary)),
                now,
            ),
    {
        let mut samples: Vec<Sample> = Vec::new();
        assert(sample_views(samples@) =~= Seq::empty());
        push_sample(&mut samples, headers, "primary", primary);
        push_sample(&mut samples, headers, "secondary", secondary);
        if samples.len() == 0 {
            return;
        }
        let ghost raw = self.records@;
        if let Some(record) = self.records.get_mut(key) {
            if let Some(value) = &record.value {
                let next = observe_value(value, &samples, now);
                record.value = Some(next);
            }
            proof {
                table::lemma_mapped_insert(raw, |r: Record| r@, key@, *record);
                if raw[key@]@.value is None {
                    assert(raw.insert(key@, *record) =~= raw);
                }
            }
        }
    }

    /// Notes that an account was turned away, because its credentials are invalid or because
    /// its quota is used up.
    pub fn block(&mut self, key: String, auth_invalid: bool, now: u64)
        requires
            old(self).wf(),
        ensures
            final(self).wf(),
            final(self)@ == quotas_blocked(old(self)@, key@, auth_invalid, now),
    {
        let ghost raw = self.records@;
        assert(self@.records.dom() =~= raw.dom());
        if self.records.len() >= MAX_RECORDS && !self.records.has(&key) {
            return;
        }
        let mut record = match self.records.remove(&key) {
            Some(record) => record,
            None => Record::none(),
        };
        if auth_invalid {
            record.failure = Some(
                Failure {
                    message: "账号认证失效".to_owned(),
                    retry_after: None,
                    auth_invalid: true,
                },
            );
            record.retry_at = u64::MAX;
        } else {
            record.value = Some(exhaust(&record.value, now));
        }
        proof {
            let f = |r: Record| r@;
            table::lemma_mapped_remove(raw, f, key@);
            table::lemma_mapped_insert(self.records@, f, key@, record);
            assert(quota_views(raw).remove(key@).insert(key@, record@) =~= quota_views(raw).insert(
                key@,
                record@,
            ));
        }
        self.records.insert(key, record);
    }

    /// The summary of an account's quota.
    pub fn status(&self, key: &String, mode: Freshness) -> (r: Json)
        requires
            self.wf(),
        ensures
            r@ == status_of(
                if self@.records.contains_key(key@) {
                    Some(self@.records[key@])
                } else {
                    None
                },
                mode,
            ),
    {
        let mut r = Json::object();
        match self.records.get(key) {
            Some(record) => {
                let quota = match &record.value {
                    Some(value) => value.copy(),
                    None => Json::Null,
                };
                let next: u64 = match &record.value {
                    Some(value) => {
                        let at = due(value, mode);
                        if at >= record.retry_at {
                            at
                        } else {
                            record.retry_at
                        }
                    },
                    None => record.retry_at,
                };
                let (error, invalid) = match &record.failure {
                    Some(f) => (Json::Text(f.message.clone()), f.auth_invalid),
                    None => (Json::Null, false),
                };
                r.set("quota".to_owned(), quota);
                r.set("error".to_owned(), error);
                r.set("network_queries".to_owned(), Json::unsigned(record.network_queries));
                r.set("last_query_at".to_owned(), Json::unsigned(record.last_query_at));
                r.set("auth_invalid".to_owned(), Json::Bool(invalid));
                r.set(
                    "next_check_at".to_owned(),
                    optional_json(
                        if record.retry_at == u64::MAX {
                            None
                        } else {
                            Some(next)
                        },
                    ),
                );
            },
            None => {
                r.set("quota".to_owned(), Json::Null);
                r.set("error".to_owned(), Json::Null);
                r.set("auth_invalid".to_owned(), Json::Bool(false));
                r.set("next_check_at".to_owned(), Json::unsigned(0));
            },
        }
        r
    }
}

proof fn lemma_forget_view(raw: Map<Seq<char>, Record>, c: Quotas, k: Seq<char>)
    requires
        c.records == quota_views(raw),
        table::is_least(raw, |k: Seq<char>, r: Record| (forget_rank(c))(k, r@), k),
    ensures
        table::is_least(c.records, forget_rank(c), k),
{
    assert forall|other: Seq<char>| #[trigger] c.records.contains_key(other) implies ((forget_rank(
        c,
    ))(other, c.records[other]) matches Some(at) ==> (forget_rank(c))(k, c.records[k])->0
        <= at) by {
        assert(raw.contains_key(other));
    }
}

/// Credentials that were found invalid are never asked with again, whoever asks.
pub proof fn law_invalid_credentials_are_final(
    c: Quotas,
    key: Seq<char>,
    t: Trouble,
    at: u64,
    mode: Freshness,
    now: u64,
)
    requires
        !c.active.contains(key),
        c.records.contains_key(key),
        c.records[key] == after_trouble(no_quota(), t, at),
        t.auth_invalid,
        now < u64::MAX,
    ensures
        lookup(c, key, mode, now) == Found::Failed(t),
{
}

/// Failures in a row are waited out for 60, 300 and then 900 seconds, or longer where the
/// server asks for it; until then nothing is asked of the network.
pub proof fn law_failures_back_off(
    q: Quota,
    t: Trouble,
    c: Quotas,
    key: Seq<char>,
    mode: Freshness,
    at: u64,
    now: u64,
)
    requires
        !t.auth_invalid,
        t.retry_after is None,
        at <= u64::MAX - 900,
        c.records.contains_key(key),
        c.records[key] == after_trouble(q, t, at),
        !c.active.contains(key),
    ensures
        after_trouble(q, t, at).retry_at == at + pause_after(one_more_failure(q.failures)),
        now < at + pause_after(one_more_failure(q.failures)) ==> lookup(c, key, mode, now)
            == Found::Failed(t),
{
}

/// What is handed in for one account, and what its answers say, leaves every other account as
/// it was.
pub proof fn law_accounts_are_apart(
    c: Quotas,
    key: Seq<char>,
    other: Seq<char>,
    list: Seq<Reading>,
    auth_invalid: bool,
    now: u64,
)
    requires
        key != other,
        c.records.contains_key(other),
    ensures
        quotas_after(c, key, list, now).records.contains_key(other),
        quotas_after(c, key, list, now).records[other] == c.records[other],
        quotas_blocked(c, key, auth_invalid, now).records.contains_key(other),
        quotas_blocked(c, key, auth_invalid, now).records[other] == c.records[other],
{
}

/// Readings of only some windows lift no block.
pub proof fn law_partial_readings_lift_no_block(
    main: Tree,
    windows: Seq<Tree>,
    list: Seq<Reading>,
)
    requires
        main is Object,
        !covered(windows, list),
    ensures
        group_after(main, windows, list).at("limit_reached"@) == main.at("limit_reached"@),
        group_after(main, windows, list).at("allowed"@) == main.at("allowed"@),
{
    reveal_strlit("windows");
    reveal_strlit("limit_reached");
    reveal_strlit("allowed");
    assert("windows"@.len() != "limit_reached"@.len());
    assert("windows"@[0] != "allowed"@[0]);
}

impl Split {
    /// Whether both shares are numbers.
    pub open spec fn wf(self) -> bool {
        self.used.bits() is Some && self.remaining.bits() is Some
    }
}

/// Whether every reading tells numbers.
pub open spec fn are_numbers(list: Seq<Reading>) -> bool {
    forall|k: int| 0 <= k < list.len() ==> (#[trigger] list[k]).share.wf()
}

/// Whether a reading is of a window, and of the reset that is known of it or of another.
pub open spec fn is_of(r: Reading, window: Tree, known: bool) -> bool {
    same_window(window, r) && known == (journal::optional_number(r.reset_at) == window.at(
        "reset_at"@,
    ))
}

/// Whether readings of one window first tell of another reset and then of the known one again.
pub open spec fn goes_back(window: Tree, list: Seq<Reading>) -> bool {
    exists|j: int, k: int|
        0 <= j < k < list.len() && is_of(#[trigger] list[j], window, false) && is_of(
            #[trigger] list[k],
            window,
            true,
        )
}

/// Whether a window that was seen again is still the same one, and no more is left of it than
/// was known until the same reset.
pub open spec fn no_higher(before: Tree, after: Tree) -> bool {
    &&& after.at("seconds"@) == before.at("seconds"@)
    &&& (after.at("reset_at"@) == before.at("reset_at"@) ==> (before.at("remaining_percent"@).bits()
        matches Some(a) ==> (after.at("remaining_percent"@).bits() matches Some(b) ==> rank(b)
        <= rank(a))))
}

/// What is left of a window never rises by what responses tell of it in numbers until the same
/// reset. Where they tell first of another reset and then of the known one again, the first
/// makes forget what was known.
pub proof fn law_known_share_never_rises(
    value: Tree,
    groups: Seq<Tree>,
    m: int,
    windows: Seq<Tree>,
    list: Seq<Reading>,
    now: u64,
    i: int,
)
    requires
        value.at("limits"@).items() == Some(groups),
        main_position(groups) == Some(m),
        groups[m].at("windows"@).items() == Some(windows),
        are_numbers(list),
        0 <= i < windows.len(),
        !goes_back(windows[i], list),
    ensures
        value_after(value, list, now).at("limits"@).items() matches Some(next)
            && next[m].at("windows"@).items() matches Some(seen) && i < seen.len() && no_higher(
            windows[i],
            seen[i],
        ),
{
    lemma_main_position(groups);
    lemma_merged_all(windows, list, i);
    lemma_value_windows(value, groups, m, windows, list, now);
}

proof fn lemma_main_position(groups: Seq<Tree>)
    ensures
        main_position(groups) matches Some(i) ==> 0 <= i < groups.len() && is_main(groups[i]),
    decreases groups.len(),
{
    if groups.len() > 0 {
        lemma_main_position(groups.drop_last());
    }
}

proof fn lemma_window_position(windows: Seq<Tree>, r: Reading)
    ensures
        window_position(windows, r) matches Some(i) ==> 0 <= i < windows.len() && same_window(
            windows[i],
            r,
        ),
    decreases windows.len(),
{
    if windows.len() > 0 {
        lemma_window_position(windows.drop_last(), r);
    }
}

/// A window after all readings: no more is left of it until the known reset, and where another
/// reset is known now a reading told of it.
proof fn lemma_merged_all(windows: Seq<Tree>, list: Seq<Reading>, i: int)
    requires
        are_numbers(list),
        0 <= i < windows.len(),
        !goes_back(windows[i], list),
    ensures
        i < merged_all(windows, list).len(),
        no_higher(windows[i], merged_all(windows, list)[i]),
        merged_all(windows, list)[i].at("reset_at"@) == windows[i].at("reset_at"@)
            && windows[i].at("remaining_percent"@).bits() is Some ==> merged_all(windows, list)[i].at(
            "remaining_percent"@,
        ).bits() is Some,
        merged_all(windows, list)[i].at("reset_at"@) != windows[i].at("reset_at"@) ==> exists|k: int|
            0 <= k < list.len() && is_of(#[trigger] list[k], windows[i], false),
    decreases list.len(),
{
    if list.len() > 0 {
        let front = list.drop_last();
        let last = list.len() - 1;
        let r = list[last];
        let w = windows[i];
        let before = merged_all(windows, front);
        assert forall|k: int| 0 <= k < front.len() implies (#[trigger] front[k]).share.wf() by {
            assert(front[k] == list[k]);
        }
        if goes_back(w, front) {
            let (j, k) = choose|j: int, k: int|
                0 <= j < k < front.len() && is_of(#[trigger] front[j], w, false) && is_of(
                    #[trigger] front[k],
                    w,
                    true,
                );
            assert(front[j] == list[j] && front[k] == list[k]);
        }
        lemma_merged_all(windows, front, i);
        lemma_window_position(before, r);
        lemma_reading_tree(r);
        if before[i].at("reset_at"@) != w.at("reset_at"@) {
            let j = choose|j: int| 0 <= j < front.len() && is_of(#[trigger] front[j], w, false);
            assert(front[j] == list[j]);
            assert(is_of(list[j], w, false));
            assert(!is_of(list[last], w, true));
        }
        if window_position(before, r) == Some(i) {
            assert(same_window(w, list[last]));
            assert(list[last].share.wf());
            assert(is_of(list[last], w, true) || is_of(list[last], w, false));
        }
    }
}

proof fn lemma_reading_tree(r: Reading)
    ensures
        reading_tree(r).at("seconds"@) == Tree::Number(Quantity::Unsigned(r.seconds)),
        reading_tree(r).at("remaining_percent"@) == r.share.remaining,
        reading_tree(r).at("reset_at"@) == journal::optional_number(r.reset_at),
{
    reveal_strlit("seconds");
    reveal_strlit("used_percent");
    reveal_strlit("remaining_percent");
    reveal_strlit("reset_at");
    assert("seconds"@.len() == 7 && "used_percent"@.len() == 12);
    assert("remaining_percent"@.len() == 17 && "reset_at"@.len() == 8);
}

/// The group that counts, and its windows, after readings.
proof fn lemma_value_windows(
    value: Tree,
    groups: Seq<Tree>,
    m: int,
    windows: Seq<Tree>,
    list: Seq<Reading>,
    now: u64,
)
    requires
        value.at("limits"@).items() == Some(groups),
        main_position(groups) == Some(m),
        0 <= m < groups.len(),
        groups[m].at("windows"@).items() == Some(windows),
    ensures
        value_after(value, list, now).at("limits"@).items() == Some(
            groups.update(m, group_after(groups[m], windows, list)),
        ),
        group_after(groups[m], windows, list).at("windows"@).items() == Some(
            merged_all(windows, list),
        ),
        !covered(windows, list) ==> value_after(value, list, now).at("fetched_at"@) == value.at(
            "fetched_at"@,
        ),
{
    reveal_strlit("limits");
    reveal_strlit("fetched_at");
    reveal_strlit("windows");
    reveal_strlit("limit_reached");
    reveal_strlit("allowed");
    assert("limits"@.len() == 6 && "fetched_at"@.len() == 10);
    assert("windows"@.len() == 7 && "limit_reached"@.len() == 13 && "allowed"@.len() == 7);
    assert("windows"@[0] == 'w' && "allowed"@[0] == 'a');
}

/// Responses that tell of only some windows, or of none that is known, leave a block of the
/// account and the time of its quota as they were; those that tell of no whole window change
/// nothing.
pub proof fn law_partial_readings_keep_the_quota(
    value: Tree,
    groups: Seq<Tree>,
    m: int,
    windows: Seq<Tree>,
    list: Seq<Reading>,
    now: u64,
)
    requires
        value.at("limits"@).items() == Some(groups),
        main_position(groups) == Some(m),
        groups[m].at("windows"@).items() == Some(windows),
        !covered(windows, list),
    ensures
        value_after(value, list, now).at("fetched_at"@) == value.at("fetched_at"@),
        value_after(value, list, now).at("limits"@).items() matches Some(next)
            && next[m].at("limit_reached"@) == groups[m].at("limit_reached"@) && next[m].at(
            "allowed"@,
        ) == groups[m].at("allowed"@),
        forall|c: Quotas, key: Seq<char>| #[trigger]
            quotas_after(c, key, Seq::empty(), now) == c,
{
    lemma_main_position(groups);
    lemma_value_windows(value, groups, m, windows, list, now);
    law_partial_readings_lift_no_block(groups[m], windows, list);
}

/// No more queries run at once than may, and one account is asked for only once at a time.
pub proof fn law_queries_are_bounded(c: Quotas, key: Seq<char>, mode: Freshness, now: u64)
    requires
        c.active.len() <= MAX_QUERIES,
        c.active.no_duplicates(),
        lookup(c, key, mode, now) is Fetch,
    ensures
        c.active.push(key).len() <= MAX_QUERIES,
        c.active.push(key).no_duplicates(),
{
}

/// Doubles, given by their bits, are ordered as the numbers they are: those not below zero as
/// their bits are, those below zero the other way round and under all others.
pub proof fn law_doubles_are_ordered(a: u64, b: u64)
    ensures
        a < 0x8000_0000_0000_0000 && b < 0x8000_0000_0000_0000 ==> (rank(a) < rank(b) <==> a < b),
        a > 0x8000_0000_0000_0000 && b > 0x8000_0000_0000_0000 ==> (rank(a) < rank(b) <==> a > b),
        a > 0x8000_0000_0000_0000 && b <= 0x8000_0000_0000_0000 ==> rank(a) < rank(b),
        rank(0) == 0 && rank(0x8000_0000_0000_0000) == 0,
{
}

/// The group of limits at a position is the first one that is named `Codex`.
pub open spec fn counts_first(value: Tree, groups: Seq<Tree>, m: int) -> bool {
    &&& value.at("limits"@) == Tree::Array(groups)
    &&& 0 <= m < groups.len()
    &&& groups[m].at("name"@) == Tree::Text("Codex"@)
    &&& forall|e: int| 0 <= e < m ==> (#[trigger] groups[e]).at("name"@) != Tree::Text("Codex"@)
}

proof fn lemma_counts_first(value: Tree, groups: Seq<Tree>, m: int)
    requires
        counts_first(value, groups, m),
    ensures
        main_position(groups) == Some(m),
        value.at("limits"@).items() == Some(groups),
{
    lemma_first_main(groups, m);
}

proof fn lemma_first_main(groups: Seq<Tree>, m: int)
    requires
        0 <= m < groups.len(),
        groups[m].at("name"@) == Tree::Text("Codex"@),
        forall|e: int|
            0 <= e < m ==> (#[trigger] groups[e]).at("name"@) != Tree::Text("Codex"@),
    ensures
        main_position(groups) == Some(m),
    decreases groups.len(),
{
    let front = groups.drop_last();
    if m < front.len() {
        lemma_first_main(front, m);
    } else {
        lemma_no_main(front);
    }
}

proof fn lemma_no_main(groups: Seq<Tree>)
    requires
        forall|e: int|
            0 <= e < groups.len() ==> (#[trigger] groups[e]).at("name"@) != Tree::Text("Codex"@),
    ensures
        main_position(groups) is None,
    decreases groups.len(),
{
    if groups.len() > 0 {
        lemma_no_main(groups.drop_last());
        assert(groups[groups.len() - 1] == groups.last());
    }
}

proof fn lemma_least_share(windows: Seq<Tree>)
    ensures
        least_share(windows) is None <==> forall|i: int|
            0 <= i < windows.len() ==> (#[trigger] windows[i]).at("remaining_percent"@).bits()
                is None,
        least_share(windows) matches Some(least) ==> {
            &&& exists|i: int|
                0 <= i < windows.len() && (#[trigger] windows[i]).at("remaining_percent"@).bits()
                    == Some(least)
            &&& forall|i: int|
                0 <= i < windows.len() ==> ((#[trigger] windows[i]).at(
                    "remaining_percent"@,
                ).bits() matches Some(bits) ==> rank(least) <= rank(bits))
        },
    decreases windows.len(),
{
    if windows.len() > 0 {
        let front = windows.drop_last();
        let end = windows.len() - 1;
        lemma_least_share(front);
        assert(windows[end] == windows.last());
        assert(forall|i: int| 0 <= i < end ==> #[trigger] windows[i] == front[i]);
        let rest = least_share(front);
        if let Some(least) = rest {
            let i = choose|i: int|
                0 <= i < front.len() && (#[trigger] front[i]).at("remaining_percent"@).bits()
                    == Some(least);
            assert(windows[i].at("remaining_percent"@).bits() == Some(least));
        } else {
            assert forall|i: int| 0 <= i < end implies (#[trigger] windows[i]).at(
                "remaining_percent"@,
            ).bits() is None by {
                assert(front[i].at("remaining_percent"@).bits() is None);
            }
        }
    }
}

/// Nothing is left of a quota that is blocked: reached, not allowed or stopped by the spending
/// limit. What is left of another is the share of one of the windows that count, and no more than
/// the share of any of them that is known.
pub proof fn law_what_is_left_is_the_least(value: Tree, groups: Seq<Tree>, m: int)
    requires
        counts_first(value, groups, m),
    ensures
        ({
            let main = groups[m];
            let blocked = main.at("limit_reached"@) == Tree::Bool(true) || main.at("allowed"@)
                == Tree::Bool(false) || value.at("spend_control_reached"@) == Tree::Bool(true);
            &&& blocked ==> remaining_of(value) == Some(0u64)
            &&& !blocked ==> match main.at("windows"@) {
                Tree::Array(windows) => {
                    &&& remaining_of(value) is None <==> forall|i: int|
                        0 <= i < windows.len() ==> (#[trigger] windows[i]).at(
                            "remaining_percent"@,
                        ).bits() is None
                    &&& remaining_of(value) matches Some(left) ==> {
                        &&& exists|i: int|
                            0 <= i < windows.len() && (#[trigger] windows[i]).at(
                                "remaining_percent"@,
                            ).bits() == Some(left)
                        &&& forall|i: int|
                            0 <= i < windows.len() ==> ((#[trigger] windows[i]).at(
                                "remaining_percent"@,
                            ).bits() matches Some(bits) ==> rank(left) <= rank(bits))
                    }
                },
                _ => remaining_of(value) is None,
            }
        }),
{
    lemma_counts_first(value, groups, m);
    if let Tree::Array(windows) = groups[m].at("windows"@) {
        lemma_least_share(windows);
    }
}

/// Where no group of limits counts, nothing is known of what is left.
pub proof fn law_no_group_no_share(value: Tree)
    requires
        value.at("limits"@) matches Tree::Array(groups) ==> forall|e: int|
            0 <= e < groups.len() ==> (#[trigger] groups[e]).at("name"@) != Tree::Text("Codex"@),
    ensures
        remaining_of(value) is None,
        !eligible_quota(value),
{
    if let Tree::Array(groups) = value.at("limits"@) {
        lemma_no_main(groups);
    }
}

/// An account can take over exactly where more than five percent is left, what is known is not
/// known in part only, and every window of every group that counts is known.
pub proof fn law_who_can_take_over(value: Tree)
    ensures
        eligible_quota(value) <==> {
            &&& value.at("partial"@) != Tree::Bool(true)
            &&& remaining_of(value) matches Some(left) && rank(left) > 0x4014_0000_0000_0000
            &&& value.at("limits"@) matches Tree::Array(groups) && forall|g: int|
                0 <= g < groups.len() && (#[trigger] groups[g]).at("name"@) == Tree::Text("Codex"@)
                    ==> groups[g].at("windows"@) is Array && groups[g].at(
                    "windows"@,
                )->Array_0.len() > 0 && forall|w: int|
                    0 <= w < groups[g].at("windows"@)->Array_0.len() ==> (#[trigger] groups[g].at(
                        "windows"@,
                    )->Array_0[w]).at("remaining_percent"@) is Number
        },
{
    if let Tree::Array(groups) = value.at("limits"@) {
        assert forall|g: int| 0 <= g < groups.len() implies is_main(#[trigger] groups[g]) == (
        groups[g].at("name"@) == Tree::Text("Codex"@)) by {}
        assert forall|g: int| 0 <= g < groups.len() implies windows_known(#[trigger] groups[g]) == (
        groups[g].at("windows"@) is Array && groups[g].at("windows"@)->Array_0.len() > 0
            && forall|w: int|
            0 <= w < groups[g].at("windows"@)->Array_0.len() ==> (#[trigger] groups[g].at(
                "windows"@,
            )->Array_0[w]).at("remaining_percent"@) is Number) by {}
    }
}

/// The window at a place is one of a group that counts, five percent or less is left of it, and
/// its reset is known.
pub open spec fn resets_at(groups: Seq<Tree>, g: int, w: int, at: u64) -> bool {
    &&& 0 <= g < groups.len()
    &&& groups[g].at("name"@) == Tree::Text("Codex"@)
    &&& groups[g].at("windows"@) matches Tree::Array(windows) && {
        &&& 0 <= w < windows.len()
        &&& windows[w].at("remaining_percent"@).bits() matches Some(left) && rank(left)
            <= 0x4014_0000_0000_0000
        &&& windows[w].at("reset_at"@).number() == Some(at)
    }
}

proof fn lemma_latest_reset(windows: Seq<Tree>) -> (w: int)
    ensures
        latest_reset(windows) matches Some(at) ==> 0 <= w < windows.len() && at_most(
            windows[w].at("remaining_percent"@).bits(),
            FIVE,
        ) && windows[w].at("reset_at"@).number() == Some(at),
        forall|i: int|
            0 <= i < windows.len() && at_most(
                (#[trigger] windows[i]).at("remaining_percent"@).bits(),
                FIVE,
            ) && windows[i].at("reset_at"@).number() is Some ==> (latest_reset(windows) matches Some(
                at,
            ) && windows[i].at("reset_at"@).number()->0 <= at),
    decreases windows.len(),
{
    if windows.len() == 0 {
        0
    } else {
        let front = windows.drop_last();
        let end = windows.len() - 1;
        let before = lemma_latest_reset(front);
        assert(windows[end] == windows.last());
        assert(forall|i: int| 0 <= i < end ==> #[trigger] windows[i] == front[i]);
        if latest_reset(windows) == latest_reset(front) {
            before
        } else {
            end
        }
    }
}

proof fn lemma_groups_reset(groups: Seq<Tree>) -> (at: (int, int))
    ensures
        groups_reset(groups) matches Some(reset) ==> resets_at(groups, at.0, at.1, reset),
        forall|g: int, w: int, reset: u64| #[trigger]
            resets_at(groups, g, w, reset) ==> (groups_reset(groups) matches Some(last) && reset
                <= last),
    decreases groups.len(),
{
    if groups.len() == 0 {
        (0, 0)
    } else {
        let front = groups.drop_last();
        let end = groups.len() - 1;
        let before = lemma_groups_reset(front);
        assert(groups[end] == groups.last());
        let mut own: int = 0;
        if let Tree::Array(windows) = groups.last().at("windows"@) {
            own = lemma_latest_reset(windows);
        }
        assert forall|g: int, w: int, reset: u64| #[trigger]
            resets_at(groups, g, w, reset) implies (groups_reset(groups) matches Some(last)
            && reset <= last) by {
            if g < end {
                assert(groups[g] == front[g]);
                assert(resets_at(front, g, w, reset));
            }
        }
        if groups_reset(groups) == groups_reset(front) {
            if groups_reset(front) is Some {
                assert(groups[before.0] == front[before.0]);
            }
            before
        } else {
            (end, own)
        }
    }
}

/// A quota that nothing keeps waiting is asked for again 30 seconds after it was known to one who
/// asks by hand, 120 seconds after for an account that may take over, and for the account in use
/// after 600 seconds, or 120 where ten percent or less is left.
pub proof fn law_when_a_quota_is_asked_for_again(value: Tree, mode: Freshness)
    ensures
        ({
            let known: int = match value.at("fetched_at"@).number() {
                Some(at) => at as int,
                None => 0,
            };
            let left = remaining_of(value);
            let due = due_at(value, mode);
            &&& mode == Freshness::Manual && known + 30 <= u64::MAX ==> due == known + 30
            &&& mode == Freshness::Candidate && known + 120 <= u64::MAX ==> due >= known + 120
            &&& mode == Freshness::Candidate && known + 120 <= u64::MAX && (left is None || rank(
                left->0,
            ) > 0x4014_0000_0000_0000) ==> due == known + 120
            &&& mode == Freshness::Active && known + 600 <= u64::MAX && (left is None || rank(
                left->0,
            ) > 0x4024_0000_0000_0000) ==> due == known + 600
            &&& mode == Freshness::Active && known + 120 <= u64::MAX && left is Some && rank(
                left->0,
            ) <= 0x4024_0000_0000_0000 ==> due >= known + 120
            &&& mode == Freshness::Active && known + 120 <= u64::MAX && left is Some
                && 0x4000_0000_0000_0000 < rank(left->0) <= 0x4024_0000_0000_0000 ==> due == known
                + 120
        }),
{
}

/// A quota that is nearly used up, with two percent or less left to the account in use and five
/// or less to one that may take over, is not asked for before the last reset of the windows that
/// are low, nor for a quarter of an hour where none of their resets is known.
pub proof fn law_low_quotas_wait_for_the_reset(
    value: Tree,
    groups: Seq<Tree>,
    mode: Freshness,
    g: int,
    w: int,
    reset: u64,
)
    requires
        value.at("limits"@) == Tree::Array(groups),
        remaining_of(value) is Some,
        (mode == Freshness::Active && rank(remaining_of(value)->0) <= 0x4000_0000_0000_0000) || (
        mode == Freshness::Candidate && rank(remaining_of(value)->0) <= 0x4014_0000_0000_0000),
    ensures
        ({
            let known: int = match value.at("fetched_at"@).number() {
                Some(at) => at as int,
                None => 0,
            };
            let due = due_at(value, mode);
            &&& resets_at(groups, g, w, reset) ==> due >= reset
            &&& known + 120 <= u64::MAX && due > known + 120 && resets_at(groups, g, w, reset)
                ==> exists|h: int, v: int| #[trigger] resets_at(groups, h, v, due)
            &&& known + 900 <= u64::MAX && (forall|h: int, v: int, at: u64|
                !#[trigger] resets_at(groups, h, v, at)) ==> due == known + 900
        }),
{
    let last = lemma_groups_reset(groups);
}

/// A question for a quota meets, in this order: one who is already asking for it; a failure that
/// is still waited out; what is known and still fresh; four others who are asking; and otherwise
/// goes to the network.
pub proof fn law_when_the_network_is_asked(
    c: Quotas,
    key: Seq<char>,
    mode: Freshness,
    now: u64,
)
    ensures
        ({
            let known = c.records.contains_key(key);
            let q = c.records[key];
            let asking = exists|i: int| 0 <= i < c.active.len() && #[trigger] c.active[i] == key;
            let fails = known && q.failure is Some && now < q.retry_at;
            let fresh = known && q.value is Some && now < due_at(q.value->0, mode);
            let found = lookup(c, key, mode, now);
            &&& found is Wait <==> asking
            &&& found is Failed <==> !asking && fails
            &&& found matches Found::Failed(t) ==> Some(t) == q.failure
            &&& found is Cached <==> !asking && !fails && fresh
            &&& found matches Found::Cached(t) ==> t.at("cached"@) == Tree::Bool(true) || !(
            q.value->0 is Object || q.value->0 is Null)
            &&& found matches Found::Cached(t) ==> forall|k: Seq<char>|
                k != "cached"@ ==> #[trigger] t.at(k) == q.value->0.at(k)
            &&& found is Busy <==> !asking && !fails && !fresh && c.active.len() >= 4
            &&& found is Fetch <==> !asking && !fails && !fresh && c.active.len() < 4
        }),
{
}

/// A failure is waited out for a minute the first time, five minutes the second and a quarter of
/// an hour from the third on, or as long as was asked for where that is longer; with credentials
/// that are not valid for ever. What was known before stays known.
pub proof fn law_how_long_a_failure_is_waited_out(q: Quota, t: Trouble, now: u64)
    requires
        q.failures < usize::MAX,
        q.network_queries < u64::MAX,
    ensures
        ({
            let after = after_trouble(q, t, now);
            let asked: int = match t.retry_after {
                Some(seconds) => seconds as int,
                None => 0,
            };
            &&& after.value == q.value && after.failure == Some(t)
            &&& after.failures == q.failures + 1
            &&& after.network_queries == q.network_queries + 1
            &&& after.last_query_at == now
            &&& t.auth_invalid ==> after.retry_at == u64::MAX
            &&& !t.auth_invalid && now + asked <= u64::MAX && now + 900 <= u64::MAX ==> {
                &&& after.retry_at >= now + asked
                &&& q.failures == 0 ==> after.retry_at >= now + 60
                &&& q.failures == 1 ==> after.retry_at >= now + 300
                &&& q.failures >= 2 ==> after.retry_at >= now + 900
                &&& after.retry_at > now + asked ==> after.retry_at == now + (if q.failures == 0 {
                    60int
                } else if q.failures == 1 {
                    300int
                } else {
                    900int
                })
            }
        }),
{
}

/// An answer ends a row of failures and is known from then on, marked as one that was asked for.
pub proof fn law_an_answer_ends_failures(q: Quota, value: Tree, now: u64)
    requires
        q.network_queries < u64::MAX,
    ensures
        ({
            let after = after_answer(q, value, now);
            &&& after.failure is None && after.failures == 0 && after.retry_at == 0
            &&& after.network_queries == q.network_queries + 1
            &&& after.last_query_at == now
            &&& after.value matches Some(known) && {
                &&& value is Object || value is Null ==> known.at("cached"@) == Tree::Bool(false)
                &&& forall|k: Seq<char>|
                    k != "cached"@ ==> #[trigger] known.at(k) == value.at(k)
            }
        }),
{
}

/// The accounts that are remembered stay 64 at most while one of them may be forgotten. At most
/// one is, none that is being asked for, and none while another one was asked for earlier.
pub proof fn law_room_for_an_account(c: Quotas, key: Seq<char>, after: Map<Seq<char>, Quota>)
    requires
        room_made(c, key, after),
    ensures
        c.records.dom().len() < 64 || c.records.contains_key(key) ==> after == c.records,
        c.records.dom().finite() && c.records.dom().len() <= 64 && (exists|k: Seq<char>| #[trigger]
            c.records.contains_key(k) && !c.active.contains(k)) ==> after.insert(
            key,
            no_quota(),
        ).dom().len() <= 64,
        forall|k: Seq<char>| #[trigger]
            after.contains_key(k) ==> c.records.contains_key(k) && after[k] == c.records[k],
        forall|k: Seq<char>, other: Seq<char>|
            #![trigger c.records.contains_key(k), after.contains_key(other)]
            c.records.contains_key(k) && !after.contains_key(k) && after.contains_key(other) ==> {
                &&& !c.active.contains(k)
                &&& c.active.contains(other) || asked_at(c.records[k]) <= asked_at(
                    c.records[other],
                )
            },
{
    if after != c.records {
        let gone = choose|k: Seq<char>| #[trigger]
            table::is_least(c.records, forget_rank(c), k) && after == c.records.remove(k);
        assert(c.records.contains_key(gone));
        assert(after.dom() =~= c.records.dom().remove(gone));
        assert(after.insert(key, no_quota()).dom() =~= after.dom().insert(key));
        assert forall|k: Seq<char>, other: Seq<char>|
            #![trigger c.records.contains_key(k), after.contains_key(other)]
            c.records.contains_key(k) && !after.contains_key(k) && after.contains_key(other) implies {
            &&& !c.active.contains(k)
            &&& c.active.contains(other) || asked_at(c.records[k]) <= asked_at(c.records[other])
        } by {
            assert(k == gone);
            assert(c.records.contains_key(other));
            assert((forget_rank(c))(k, c.records[k]) is Some);
        }
    } else {
        assert(after.insert(key, no_quota()).dom() =~= after.dom().insert(key));
        if c.records.contains_key(key) {
            assert(after.dom().insert(key) =~= after.dom());
        }
    }
}

/// When what is remembered of an account was asked for; 0 where nothing is known.
pub open spec fn asked_at(q: Quota) -> int {
    match q.value {
        Some(value) => match value.at("fetched_at"@).number() {
            Some(at) => at as int,
            None => 0,
        },
        None => 0,
    }
}

/// An account that is handed in is not being asked for any more; the others still are.
pub proof fn law_only_its_own_query_ends(list: Seq<Seq<char>>, key: Seq<char>, other: Seq<char>)
    ensures
        !without(list, key).contains(key),
        other != key ==> (without(list, key).contains(other) <==> list.contains(other)),
        without(list, key).len() <= list.len(),
        !list.contains(key) ==> without(list, key) == list,
    decreases list.len(),
{
    reveal(Seq::filter);
    if list.len() > 0 {
        let front = list.drop_last();
        let rest = without(front, key);
        law_only_its_own_query_ends(front, key, other);
        assert(list =~= front.push(list.last()));
        assert(list.contains(key) <==> front.contains(key) || list.last() == key) by {
            lemma_pushed(front, list.last(), key);
        }
        lemma_pushed(front, list.last(), other);
        if list.last() != key {
            assert(without(list, key) == rest.push(list.last()));
            lemma_pushed(rest, list.last(), key);
            lemma_pushed(rest, list.last(), other);
        }
    }
}

proof fn lemma_pushed(list: Seq<Seq<char>>, last: Seq<char>, s: Seq<char>)
    ensures
        list.push(last).contains(s) <==> list.contains(s) || last == s,
{
    let all = list.push(last);
    assert(all[list.len() as int] == last);
    if list.contains(s) {
        let i = choose|i: int| 0 <= i < list.len() && list[i] == s;
        assert(all[i] == s);
    }
    if all.contains(s) && last != s {
        let i = choose|i: int| 0 <= i < all.len() && all[i] == s;
        assert(list[i] == s);
    }
}

/// A window is told of by an answer's headers exactly where its share and its length in minutes
/// are, and the length is not nothing; it is then of sixty times as many seconds. Those of the
/// primary window come first.
pub proof fn law_what_headers_tell(
    headers: Map<Seq<char>, String>,
    primary: Option<Split>,
    secondary: Option<Split>,
)
    ensures
        ({
            let list = readings(headers, primary, secondary);
            let first = headers["x-codex-"@ + "primary"@ + "-window-minutes"@]@;
            let second = headers["x-codex-"@ + "secondary"@ + "-window-minutes"@]@;
            let has_first = primary is Some && headers.contains_key(
                "x-codex-"@ + "primary"@ + "-window-minutes"@,
            ) && text::number_of(first) is Some && 0 < text::number_of(first)->0 * 60 <= u64::MAX;
            let has_second = secondary is Some && headers.contains_key(
                "x-codex-"@ + "secondary"@ + "-window-minutes"@,
            ) && text::number_of(second) is Some && 0 < text::number_of(second)->0 * 60
                <= u64::MAX;
            let first_reset = "x-codex-"@ + "primary"@ + "-reset-at"@;
            let second_reset = "x-codex-"@ + "secondary"@ + "-reset-at"@;
            &&& list.len() == (if has_first {
                1int
            } else {
                0int
            }) + (if has_second {
                1int
            } else {
                0int
            })
            &&& has_first ==> {
                &&& list[0].seconds == text::number_of(first)->0 * 60
                &&& Some(list[0].share) == primary
                &&& headers.contains_key(first_reset) ==> list[0].reset_at == text::number_of(
                    headers[first_reset]@,
                )
                &&& !headers.contains_key(first_reset) ==> list[0].reset_at is None
            }
            &&& has_second ==> {
                &&& list[list.len() - 1].seconds == text::number_of(second)->0 * 60
                &&& Some(list[list.len() - 1].share) == secondary
                &&& headers.contains_key(second_reset) ==> list[list.len() - 1].reset_at
                    == text::number_of(headers[second_reset]@)
                &&& !headers.contains_key(second_reset) ==> list[list.len() - 1].reset_at is None
            }
        }),
{
}

/// A window says what a reading does: its length, its shares and its reset.
pub open spec fn says_the_same(window: Tree, r: Reading) -> bool {
    &&& window.at("seconds"@).number() == Some(r.seconds)
    &&& window.at("used_percent"@) == r.share.used
    &&& window.at("remaining_percent"@) == r.share.remaining
    &&& window.at("reset_at"@).number() == r.reset_at
}

/// Two windows are of one length.
pub open spec fn is_as_long(window: Tree, r: Reading) -> bool {
    window.at("seconds"@) == Tree::Number(Quantity::Unsigned(r.seconds))
}

proof fn lemma_says_the_same(r: Reading)
    ensures
        says_the_same(reading_tree(r), r),
{
    reveal_strlit("seconds");
    reveal_strlit("used_percent");
    reveal_strlit("remaining_percent");
    reveal_strlit("reset_at");
    assert("seconds"@.len() == 7 && "used_percent"@.len() == 12);
    assert("remaining_percent"@.len() == 17 && "reset_at"@.len() == 8);
}

proof fn lemma_first_window(windows: Seq<Tree>, r: Reading)
    ensures
        window_position(windows, r) is None <==> forall|i: int|
            0 <= i < windows.len() ==> !is_as_long(#[trigger] windows[i], r),
        window_position(windows, r) matches Some(i) ==> 0 <= i < windows.len() && is_as_long(
            windows[i],
            r,
        ) && forall|e: int| 0 <= e < i ==> !is_as_long(#[trigger] windows[e], r),
    decreases windows.len(),
{
    if windows.len() > 0 {
        let front = windows.drop_last();
        let end = windows.len() - 1;
        lemma_first_window(front, r);
        assert(windows[end] == windows.last());
        assert(forall|i: int| 0 <= i < end ==> #[trigger] windows[i] == front[i]);
        if window_position(front, r) is None {
            assert forall|i: int| 0 <= i < end implies !is_as_long(#[trigger] windows[i], r) by {
                assert(!is_as_long(front[i], r));
            }
        }
    }
}

/// A reading replaces what is known of the first window of its length, unless more is left by it
/// until the same reset than is known. Where no window is of its length it is a new one, up to
/// two. No other window changes.
pub proof fn law_a_reading_replaces_its_window(windows: Seq<Tree>, r: Reading, i: int)
    requires
        0 <= i < windows.len(),
        is_as_long(windows[i], r),
        forall|e: int| 0 <= e < i ==> !is_as_long(#[trigger] windows[e], r),
    ensures
        ({
            let next = merged(windows, r);
            let w = windows[i];
            let stale = {
                &&& r.reset_at is Some ==> w.at("reset_at"@) == Tree::Number(
                    Quantity::Unsigned(r.reset_at->0),
                )
                &&& r.reset_at is None ==> w.at("reset_at"@) is Null
                &&& w.at("remaining_percent"@).bits() matches Some(known)
                    && r.share.remaining.bits() matches Some(told) && rank(told) > rank(known)
            };
            &&& next.len() == windows.len()
            &&& forall|k: int|
                0 <= k < windows.len() && k != i ==> #[trigger] next[k] == windows[k]
            &&& stale ==> next[i] == windows[i]
            &&& !stale ==> says_the_same(next[i], r)
        }),
{
    lemma_says_the_same(r);
    lemma_first_window(windows, r);
    if window_position(windows, r) is Some {
        let first = window_position(windows, r)->0;
        if first < i {
            assert(is_as_long(windows[first], r));
        }
        if i < first {
            assert(is_as_long(windows[i], r));
        }
    }
}

/// A reading of a window that is not known makes a new one while fewer than two are.
pub proof fn law_a_new_window_is_added(windows: Seq<Tree>, r: Reading)
    requires
        forall|e: int| 0 <= e < windows.len() ==> !is_as_long(#[trigger] windows[e], r),
    ensures
        windows.len() >= 2 ==> merged(windows, r) == windows,
        windows.len() < 2 ==> merged(windows, r).len() == windows.len() + 1
            && merged(windows, r).take(windows.len() as int) == windows && says_the_same(
            merged(windows, r).last(),
            r,
        ),
{
    lemma_says_the_same(r);
    lemma_first_window(windows, r);
    if windows.len() < 2 {
        assert(merged(windows, r).take(windows.len() as int) =~= windows);
    }
}

/// Readings are taken one after the other.
pub proof fn law_readings_are_taken_in_order(windows: Seq<Tree>, list: Seq<Reading>, r: Reading)
    ensures
        merged_all(windows, Seq::empty()) == windows,
        merged_all(windows, list.push(r)) == merged(merged_all(windows, list), r),
{
    assert(list.push(r).drop_last() =~= list);
}

/// Readings of every known window lift a block and count as an answer of that time; the group's
/// windows are then those with the readings taken in.
pub proof fn law_full_readings_lift_a_block(
    value: Tree,
    groups: Seq<Tree>,
    m: int,
    windows: Seq<Tree>,
    list: Seq<Reading>,
    now: u64,
)
    requires
        counts_first(value, groups, m),
        groups[m].at("windows"@) == Tree::Array(windows),
        windows.len() > 0,
        forall|i: int|
            0 <= i < windows.len() ==> exists|k: int|
                0 <= k < list.len() && is_as_long(#[trigger] windows[i], #[trigger] list[k]),
    ensures
        ({
            let after = value_after(value, list, now);
            &&& after.at("fetched_at"@).number() == Some(now)
            &&& after.at("limits"@) matches Tree::Array(next) && {
                &&& next.len() == groups.len()
                &&& forall|g: int|
                    0 <= g < groups.len() && g != m ==> #[trigger] next[g] == groups[g]
                &&& next[m].at("limit_reached"@) == Tree::Bool(false)
                &&& next[m].at("allowed"@) == Tree::Bool(true)
                &&& next[m].at("name"@) == Tree::Text("Codex"@)
                &&& next[m].at("windows"@) == Tree::Array(merged_all(windows, list))
            }
        }),
{
    lemma_counts_first(value, groups, m);
    assert forall|i: int| 0 <= i < windows.len() implies is_covered(#[trigger] windows[i], list) by {
        let k = choose|k: int|
            0 <= k < list.len() && is_as_long(windows[i], #[trigger] list[k]);
        assert(same_window(windows[i], list[k]));
    }
    assert(covered(windows, list));
    lemma_value_windows(value, groups, m, windows, list, now);
    lemma_group_names();
}

proof fn lemma_group_names()
    ensures
        "limits"@.len() == 6,
        "fetched_at"@.len() == 10,
        "name"@.len() == 4,
        "windows"@.len() == 7,
        "windows"@[0] == 'w',
        "allowed"@.len() == 7,
        "allowed"@[0] == 'a',
        "limit_reached"@.len() == 13,
{
    reveal_strlit("limits");
    reveal_strlit("fetched_at");
    reveal_strlit("name");
    reveal_strlit("windows");
    reveal_strlit("limit_reached");
    reveal_strlit("allowed");
}

/// An account that is told that its quota is used up has nothing left, whatever was known of it;
/// what is known otherwise stays, and what was not known at all is known from now on.
pub proof fn law_used_up_leaves_nothing(q: Quota, now: u64)
    requires
        q.value matches Some(value) ==> value.at("limits"@) matches Tree::Array(groups) && exists|
            g: int,
        |
            0 <= g < groups.len() && (#[trigger] groups[g]).at("name"@) == Tree::Text("Codex"@),
    ensures
        ({
            let after = blocked_quota(q, false, now);
            &&& after.value is Some
            &&& remaining_of(after.value->0) == Some(0u64)
            &&& !eligible_quota(after.value->0)
            &&& after.failure == q.failure && after.retry_at == q.retry_at && after.failures
                == q.failures
            &&& q.value is None ==> after.value->0.at("fetched_at"@).number() == Some(now)
            &&& q.value matches Some(value) ==> after.value->0.at("fetched_at"@) == value.at(
                "fetched_at"@,
            )
        }),
{
    lemma_group_names();
    let after = exhausted(q.value, now);
    match q.value {
        Some(value) => {
            if let Tree::Array(groups) = value.at("limits"@) {
                let next = reached(groups);
                assert(after.at("limits"@) == Tree::Array(next));
                lemma_some_main(groups);
                let m = main_position(groups)->0;
                lemma_first_main_is_first(groups);
                assert(next[m].at("name"@) == Tree::Text("Codex"@));
                assert forall|e: int| 0 <= e < m implies (#[trigger] next[e]).at("name"@)
                    != Tree::Text("Codex"@) by {
                    assert(!is_main(groups[e]));
                    assert(next[e] == groups[e]);
                }
                assert(counts_first(after, next, m));
                law_what_is_left_is_the_least(after, next, m);
            }
        },
        None => {
            let groups = after.at("limits"@)->Array_0;
            assert(groups.len() == 1);
            assert(groups[0].at("name"@) == Tree::Text("Codex"@));
            assert(counts_first(after, groups, 0));
            law_what_is_left_is_the_least(after, groups, 0);
        },
    }
}

proof fn lemma_some_main(groups: Seq<Tree>)
    requires
        exists|g: int|
            0 <= g < groups.len() && (#[trigger] groups[g]).at("name"@) == Tree::Text("Codex"@),
    ensures
        main_position(groups) is Some,
    decreases groups.len(),
{
    let g = choose|g: int|
        0 <= g < groups.len() && (#[trigger] groups[g]).at("name"@) == Tree::Text("Codex"@);
    let front = groups.drop_last();
    if g < front.len() {
        assert(front[g] == groups[g]);
        lemma_some_main(front);
    }
}

proof fn lemma_first_main_is_first(groups: Seq<Tree>)
    ensures
        main_position(groups) matches Some(i) ==> 0 <= i < groups.len() && is_main(groups[i])
            && forall|e: int| 0 <= e < i ==> !is_main(#[trigger] groups[e]),
    decreases groups.len(),
{
    if groups.len() > 0 {
        let front = groups.drop_last();
        lemma_first_main_is_first(front);
        assert(forall|i: int| 0 <= i < front.len() ==> #[trigger] groups[i] == front[i]);
        if main_position(front) is None {
            assert forall|e: int| 0 <= e < front.len() implies !is_main(#[trigger] groups[e]) by {
                lemma_none_main(front);
                assert(!is_main(front[e]));
            }
        }
    }
}

proof fn lemma_none_main(groups: Seq<Tree>)
    requires
        main_position(groups) is None,
    ensures
        forall|e: int| 0 <= e < groups.len() ==> !is_main(#[trigger] groups[e]),
    decreases groups.len(),
{
    if groups.len() > 0 {
        let front = groups.drop_last();
        lemma_none_main(front);
        assert forall|e: int| 0 <= e < groups.len() implies !is_main(#[trigger] groups[e]) by {
            if e < front.len() {
                assert(front[e] == groups[e]);
            }
        }
    }
}

/// An account whose credentials were refused is not asked for again; what was known of its quota
/// stays.
pub proof fn law_refused_credentials_are_remembered(q: Quota, now: u64)
    ensures
        ({
            let after = blocked_quota(q, true, now);
            &&& after.retry_at == u64::MAX
            &&& after.failure matches Some(t) && t.auth_invalid
            &&& after.value == q.value && after.failures == q.failures
        }),
{
}

/// A block is remembered of an account that is known already, and of a new one while fewer than
/// 64 are remembered.
pub proof fn law_when_a_block_is_remembered(
    c: Quotas,
    key: Seq<char>,
    auth_invalid: bool,
    now: u64,
)
    ensures
        ({
            let after = quotas_blocked(c, key, auth_invalid, now);
            &&& after.active == c.active
            &&& c.records.contains_key(key) ==> after.records == c.records.insert(
                key,
                blocked_quota(c.records[key], auth_invalid, now),
            )
            &&& !c.records.contains_key(key) && c.records.dom().len() < 64 ==> after.records
                == c.records.insert(
                key,
                blocked_quota(
                    Quota {
                        value: None,
                        failure: None,
                        retry_at: 0,
                        failures: 0,
                        network_queries: 0,
                        last_query_at: 0,
                    },
                    auth_invalid,
                    now,
                ),
            )
            &&& !c.records.contains_key(key) && c.records.dom().len() >= 64 ==> after == c
        }),
{
}

/// The summary of an account's quota gives what is known and why no more is, and when it may be
/// asked for next: not before it is due and not before a failure is waited out, and never for an
/// account whose failure is not.
pub proof fn law_summary_of_a_quota(q: Quota, mode: Freshness)
    ensures
        ({
            let t = status_of(Some(q), mode);
            let next = t.at("next_check_at"@).number();
            &&& q.value matches Some(value) ==> t.at("quota"@) == value
            &&& q.value is None ==> t.at("quota"@) is Null
            &&& q.failure matches Some(f) ==> t.at("error"@) == Tree::Text(f.message)
            &&& q.failure is None ==> t.at("error"@) is Null
            &&& t.at("auth_invalid"@) == Tree::Bool(q.failure is Some && q.failure->0.auth_invalid)
            &&& t.at("network_queries"@).number() == Some(q.network_queries)
            &&& t.at("last_query_at"@).number() == Some(q.last_query_at)
            &&& q.retry_at == u64::MAX ==> t.at("next_check_at"@) is Null
            &&& q.retry_at < u64::MAX ==> {
                &&& next is Some
                &&& next->0 >= q.retry_at
                &&& q.value matches Some(value) ==> next->0 >= due_at(value, mode)
                &&& next->0 == q.retry_at || (q.value is Some && next->0 == due_at(
                    q.value->0,
                    mode,
                ))
            }
        }),
{
    lemma_summary_names();
}

/// Of an account that nothing is known of the summary says just this, and that it may be asked
/// for at once.
pub proof fn law_summary_of_nothing(mode: Freshness)
    ensures
        status_of(None, mode).at("quota"@) is Null,
        status_of(None, mode).at("error"@) is Null,
        status_of(None, mode).at("auth_invalid"@) == Tree::Bool(false),
        status_of(None, mode).at("next_check_at"@).number() == Some(0u64),
{
    lemma_summary_names();
}

proof fn lemma_summary_names()
    ensures
        "quota"@.len() == 5 && "quota"@[0] == 'q',
        "error"@.len() == 5 && "error"@[0] == 'e',
        "network_queries"@.len() == 15,
        "last_query_at"@.len() == 13 && "last_query_at"@[0] == 'l',
        "auth_invalid"@.len() == 12,
        "next_check_at"@.len() == 13 && "next_check_at"@[0] == 'n',
{
    reveal_strlit("quota");
    reveal_strlit("error");
    reveal_strlit("network_queries");
    reveal_strlit("last_query_at");
    reveal_strlit("auth_invalid");
    reveal_strlit("next_check_at");
}

/// A quota is remembered under the digest of the credentials as they are written.
pub proof fn law_quotas_belong_to_credentials(auth: Tree)
    ensures
        key_of(auth) == digest::digest_of(seq![json::json_text(auth)]),
{
}

/// Quotas of an earlier run are taken over from a file of one mebibyte at most, of 64 accounts at
/// most.
pub proof fn law_which_quotas_are_taken_over(size: usize, records: nat)
    ensures
        is_restorable(size, records) <==> size <= 1_048_576 && records <= 64,
{
}

/// One who is told to fetch a quota is asking for it until it is handed in: whoever else asks for
/// it meanwhile waits. Any other answer changes nothing, and what is remembered never changes by a
/// question.
pub proof fn law_a_question_is_asked_once(
    c: Quotas,
    key: Seq<char>,
    mode: Freshness,
    now: u64,
    other: Freshness,
    later: u64,
)
    ensures
        ({
            let after = after_question(c, key, mode, now);
            &&& after.records == c.records
            &&& lookup(c, key, mode, now) is Fetch ==> after.active.len() == c.active.len() + 1
                && lookup(after, key, other, later) is Wait
            &&& !(lookup(c, key, mode, now) is Fetch) ==> after == c
        }),
{
    let after = after_question(c, key, mode, now);
    if lookup(c, key, mode, now) is Fetch {
        assert(after.active[c.active.len() as int] == key);
        assert(after.active.contains(key));
    }
}

/// Readings that leave out a known window, or that come where none is known, lift no block and do
/// not count as an answer: whether the limit is reached, whether requests are allowed and when the
/// quota was known stay as they were.
pub proof fn law_incomplete_readings_lift_nothing(
    value: Tree,
    groups: Seq<Tree>,
    m: int,
    windows: Seq<Tree>,
    list: Seq<Reading>,
    now: u64,
    i: int,
)
    requires
        counts_first(value, groups, m),
        groups[m].at("windows"@) == Tree::Array(windows),
        windows.len() == 0 || (0 <= i < windows.len() && forall|k: int|
            0 <= k < list.len() ==> !is_as_long(windows[i], #[trigger] list[k])),
    ensures
        ({
            let after = value_after(value, list, now);
            &&& after.at("fetched_at"@) == value.at("fetched_at"@)
            &&& after.at("limits"@) matches Tree::Array(next) && {
                &&& next.len() == groups.len()
                &&& next[m].at("limit_reached"@) == groups[m].at("limit_reached"@)
                &&& next[m].at("allowed"@) == groups[m].at("allowed"@)
            }
        }),
{
    lemma_counts_first(value, groups, m);
    if windows.len() > 0 {
        assert(!is_covered(windows[i], list)) by {
            if is_covered(windows[i], list) {
                let k = choose|k: int|
                    0 <= k < list.len() && same_window(windows[i], #[trigger] list[k]);
                assert(is_as_long(windows[i], list[k]));
            }
        }
    }
    assert(!covered(windows, list));
    lemma_value_windows(value, groups, m, windows, list, now);
    law_partial_readings_lift_no_block(groups[m], windows, list);
}

/// Readings of an account of which no group of limits is known change nothing but that an object
/// without limits says that it has none.
pub proof fn law_readings_without_limits(value: Tree, list: Seq<Reading>, now: u64, key: Seq<char>)
    requires
        !(value.at("limits"@) is Array),
    ensures
        ({
            let after = value_after(value, list, now);
            &&& value.field("limits"@) is Some ==> after == value
            &&& value is Object && value.field("limits"@) is None ==> after.field("limits"@)
                == Some(Tree::Null)
            &&& value is Object && key != "limits"@ ==> after.field(key) == value.field(key)
        }),
{
}

/// Readings are taken in for an account whose quota is known, and only for it; without any, and
/// for another account, nothing changes.
pub proof fn law_whose_readings_count(
    c: Quotas,
    key: Seq<char>,
    list: Seq<Reading>,
    now: u64,
    other: Seq<char>,
)
    ensures
        ({
            let after = quotas_after(c, key, list, now);
            let known = c.records.contains_key(key) && c.records[key].value is Some;
            &&& after.active == c.active
            &&& list.len() == 0 || !known ==> after == c
            &&& list.len() > 0 && known ==> after.records.contains_key(key) && after.records[key]
                == (Quota {
                value: Some(value_after(c.records[key].value->0, list, now)),
                ..c.records[key]
            })
            &&& other != key ==> (after.records.contains_key(other)
                <==> c.records.contains_key(other)) && (c.records.contains_key(other)
                ==> after.records[other] == c.records[other])
        }),
{
}

} // verus!
