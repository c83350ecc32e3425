//! What the account service says about quotas, in the form that is shown and remembered.
use crate::json;
use crate::json::flag_json;
use crate::json::push_json;
use crate::json::text_json;
use crate::json::Json;
use crate::json::Quantity;
use crate::json::Tree;
use crate::journal;
use crate::journal::optional_json;
use crate::quota;
use crate::quota::window_json;
use crate::quota::Failure;
use crate::quota::Share;
use crate::quota::Split;
use crate::text;
use crate::text::first_chars;
use crate::text::join2;
use crate::text::join3;
use crate::text::number_text;
use crate::throttle;
use crate::throttle::retry_after;
use crate::clock;
use crate::clock::seconds_of;
use crate::header_map;
use crate::header_map::header_value;
use vstd::prelude::*;
use vstd::utf8::*;

verus! {

broadcast use {vstd::seq_lib::group_seq_properties, vstd::map::group_map_axioms};

/// How much of a name is shown, in characters.
pub const MAX_TEXT: usize = 128;

/// How many additional limits are shown.
pub const MAX_ADDITIONAL: usize = 16;

/// The largest answer, in bytes.
pub const MAX_ANSWER: usize = 1_048_576;

/// The share of each double, given by its bits, that an answer may hold.
#[derive(Debug)]
pub struct Known {
    pub bits: u64,
    pub share: Share,
}

/// The share of a double in a list.
pub open spec fn share_of(shares: Seq<Known>, bits: u64) -> Option<Split>
    decreases shares.len(),
{
    if shares.len() == 0 {
        None
    } else {
        match share_of(shares.drop_last(), bits) {
            Some(s) => Some(s),
            None => if shares.last().bits == bits {
                Some(shares.last().share@)
            } else {
                None
            },
        }
    }
}

/// Whether a double, given by its bits, is not below zero.
pub open spec fn is_share(bits: u64) -> bool {
    quota::rank(bits) >= 0
}

/// The bits of the share that a window says is used.
pub open spec fn used_bits(window: Tree) -> Option<u64> {
    match window.at("used_percent"@).bits() {
        Some(bits) => if is_share(bits) {
            Some(bits)
        } else {
            None
        },
        None => None,
    }
}

/// At most the first characters of a text.
pub open spec fn shortened(t: Tree) -> Option<Seq<char>> {
    match t.text() {
        Some(s) => Some(
            if s.len() > MAX_TEXT {
                s.take(MAX_TEXT as int)
            } else {
                s
            },
        ),
        None => None,
    }
}

/// When a window is reset.
pub open spec fn reset_of(window: Tree, now: u64) -> Option<u64> {
    match window.at("reset_at"@).number() {
        Some(at) => if at > 0 {
            Some(at)
        } else {
            reset_after(window, now)
        },
        None => reset_after(window, now),
    }
}

pub open spec fn reset_after(window: Tree, now: u64) -> Option<u64> {
    match window.at("reset_after_seconds"@).number() {
        Some(seconds) => if now + seconds <= u64::MAX {
            Some((now + seconds) as u64)
        } else {
            None
        },
        None => None,
    }
}

/// A window as it is shown; a share that is not in the list is unknown.
pub open spec fn shown_window(window: Tree, now: u64, shares: Seq<Known>) -> Tree {
    let split = match used_bits(window) {
        Some(bits) => share_of(shares, bits),
        None => None,
    };
    quota::window_tree(
        journal::optional_number(window.at("limit_window_seconds"@).number()),
        match split {
            Some(s) => s.used,
            None => Tree::Null,
        },
        match split {
            Some(s) => s.remaining,
            None => Tree::Null,
        },
        reset_of(window, now),
    )
}

pub open spec fn shown_slot(data: Tree, slot: Seq<char>, now: u64, shares: Seq<Known>) -> Seq<
    Tree,
> {
    if data.at(slot) is Object {
        seq![shown_window(data.at(slot), now, shares)]
    } else {
        Seq::empty()
    }
}

/// A limit as it is shown.
pub open spec fn shown_limit(name: Seq<char>, data: Tree, now: u64, shares: Seq<Known>) -> Tree {
    Tree::Object(
        Map::empty().insert("name"@, Tree::Text(name)).insert(
            "allowed"@,
            json::optional_flag(data.at("allowed"@).flag()),
        ).insert("limit_reached"@, json::optional_flag(data.at("limit_reached"@).flag())).insert(
            "windows"@,
            Tree::Array(
                shown_slot(data, "primary_window"@, now, shares) + shown_slot(
                    data,
                    "secondary_window"@,
                    now,
                    shares,
                ),
            ),
        ),
    )
}

pub open spec fn shown_named(
    payload: Tree,
    key: Seq<char>,
    name: Seq<char>,
    now: u64,
    shares: Seq<Known>,
) -> Seq<Tree> {
    if payload.at(key) is Object {
        seq![shown_limit(name, payload.at(key), now, shares)]
    } else {
        Seq::empty()
    }
}

/// The name of an additional limit.
pub open spec fn additional_name(item: Tree) -> Seq<char> {
    match shortened(item.at("limit_name"@)) {
        Some(name) => name,
        None => match shortened(item.at("metered_feature"@)) {
            Some(name) => name,
            None => "其他额度"@,
        },
    }
}

pub open spec fn shown_additional(items: Seq<Tree>, now: u64, shares: Seq<Known>) -> Seq<Tree>
    decreases items.len(),
{
    if items.len() == 0 {
        Seq::empty()
    } else {
        let rest = shown_additional(items.drop_last(), now, shares);
        let item = items.last();
        if item.at("rate_limit"@) is Object {
            rest.push(shown_limit(additional_name(item), item.at("rate_limit"@), now, shares))
        } else {
            rest
        }
    }
}

pub open spec fn first_items(items: Seq<Tree>) -> Seq<Tree> {
    if items.len() > MAX_ADDITIONAL {
        items.take(MAX_ADDITIONAL as int)
    } else {
        items
    }
}

pub open spec fn shown_limits(payload: Tree, now: u64, shares: Seq<Known>) -> Seq<Tree> {
    let named = shown_named(payload, "rate_limit"@, "Codex"@, now, shares) + shown_named(
        payload,
        "code_review_rate_limit"@,
        "代码审查"@,
        now,
        shares,
    );
    match payload.at("additional_rate_limits"@).items() {
        Some(items) => named + shown_additional(first_items(items), now, shares),
        None => named,
    }
}

pub open spec fn shown_credits(payload: Tree) -> Tree {
    let credits = payload.at("credits"@);
    if credits is Object {
        Tree::Object(
            Map::empty().insert(
                "has_credits"@,
                json::optional_flag(credits.at("has_credits"@).flag()),
            ).insert("unlimited"@, json::optional_flag(credits.at("unlimited"@).flag())).insert(
                "balance"@,
                json::optional_text(shortened(credits.at("balance"@))),
            ),
        )
    } else {
        Tree::Null
    }
}

/// Whether an answer says anything about quotas.
pub open spec fn is_usage(payload: Tree) -> bool {
    payload.field("plan_type"@) is Some || payload.field("rate_limit"@) is Some || payload.field(
        "credits"@,
    ) is Some
}

/// An answer as it is shown and remembered.
pub open spec fn shown(payload: Tree, now: u64, shares: Seq<Known>) -> Tree {
    Tree::Object(
        Map::empty().insert(
            "plan_type"@,
            json::optional_text(shortened(payload.at("plan_type"@))),
        ).insert("fetched_at"@, Tree::Number(Quantity::Unsigned(now))).insert(
            "limits"@,
            Tree::Array(shown_limits(payload, now, shares)),
        ).insert("credits"@, shown_credits(payload)).insert(
            "reset_credits"@,
            journal::optional_number(
                payload.at("rate_limit_reset_credits"@).at("available_count"@).number(),
            ),
        ).insert(
            "spend_control_reached"@,
            json::optional_flag(payload.at("spend_control"@).at("reached"@).flag()),
        ),
    )
}

fn find_share(shares: &Vec<Known>, bits: u64) -> (r: Option<usize>)
    ensures
        r is Some <==> share_of(shares@, bits) is Some,
        r matches Some(i) ==> i < shares@.len() && share_of(shares@, bits) == Some(
            shares@[i as int].share@,
        ),
{
    let mut found: Option<usize> = None;
    let mut i: usize = 0;
    assert(shares@.take(0) =~= Seq::empty());
    while i < shares.len()
        invariant
            i <= shares@.len(),
            found is Some <==> share_of(shares@.take(i as int), bits) is Some,
            found matches Some(k) ==> k < i && share_of(shares@.take(i as int), bits) == Some(
                shares@[k as int].share@,
            ),
        decreases shares@.len() - i,
    {
        assert(shares@.take(i + 1).drop_last() == shares@.take(i as int));
        if found.is_none() && shares[i].bits == bits {
            found = Some(i);
        }
        i += 1;
    }
    assert(shares@.take(shares@.len() as int) == shares@);
    found
}

/// The bits of the share that a window says is used.
fn used_of(window: &Json) -> (r: Option<u64>)
    ensures
        r == used_bits(window@),
{
    match window.get("used_percent") {
        Some(used) => match used.as_bits() {
            Some(bits) => if quota::rank_of(bits) >= 0 {
                Some(bits)
            } else {
                None
            },
            None => None,
        },
        None => None,
    }
}

/// At most the first characters of a text.
pub fn text(value: Option<&Json>) -> (r: Option<String>)
    ensures
        text::text_option(r) == (match value {
            Some(j) => shortened(j@),
            None => None,
        }),
{
    match value {
        Some(j) => match j.as_text() {
            Some(s) => Some(first_chars(s, MAX_TEXT)),
            None => None,
        },
        None => None,
    }
}

fn flag_at(value: &Json, key: &str) -> (r: Option<bool>)
    ensures
        r == value@.at(key@).flag(),
{
    match value.get(key) {
        Some(j) => j.as_flag(),
        None => None,
    }
}

fn window(value: &Json, now: u64, shares: &Vec<Known>) -> (r: Json)
    ensures
        r@ == shown_window(value@, now, shares@),
{
    let (used, remaining) = match used_of(value) {
        Some(bits) => match find_share(shares, bits) {
            Some(i) => (shares[i].share.used.copy(), shares[i].share.remaining.copy()),
            None => (Json::Null, Json::Null),
        },
        None => (Json::Null, Json::Null),
    };
    let later: Option<u64> = match value.number_at("reset_after_seconds") {
        Some(seconds) => if seconds <= u64::MAX - now {
            Some(now + seconds)
        } else {
            None
        },
        None => None,
    };
    let reset: Option<u64> = match value.number_at("reset_at") {
        Some(at) => if at > 0 {
            Some(at)
        } else {
            later
        },
        None => later,
    };
    window_json(optional_json(value.number_at("limit_window_seconds")), used, remaining, reset)
}

fn push_slot(out: &mut Vec<Json>, data: &Json, slot: &str, now: u64, shares: &Vec<Known>)
    ensures
        json::trees_of(final(out)@) == json::trees_of(old(out)@) + shown_slot(
            data@,
            slot@,
            now,
            shares@,
        ),
{
    if let Some(value) = data.get(slot) {
        if value.is_object() {
            push_json(out, window(value, now, shares));
        }
    }
}

/// A limit as it is shown.
pub fn limit(name: String, data: &Json, now: u64, shares: &Vec<Known>) -> (r: Json)
    ensures
        r@ == shown_limit(name@, data@, now, shares@),
{
    let mut windows: Vec<Json> = Vec::new();
    push_slot(&mut windows, data, "primary_window", now, shares);
    push_slot(&mut windows, data, "secondary_window", now, shares);
    let mut r = Json::object();
    r.set("name".to_owned(), Json::Text(name));
    r.set("allowed".to_owned(), flag_json(flag_at(data, "allowed")));
    r.set("limit_reached".to_owned(), flag_json(flag_at(data, "limit_reached")));
    r.set("windows".to_owned(), Json::Array(windows));
    r
}

fn push_named(
    out: &mut Vec<Json>,
    payload: &Json,
    key: &str,
    name: &str,
    now: u64,
    shares: &Vec<Known>,
)
    ensures
        json::trees_of(final(out)@) == json::trees_of(old(out)@) + shown_named(
            payload@,
            key@,
            name@,
            now,
            shares@,
        ),
{
    if let Some(value) = payload.get(key) {
        if value.is_object() {
            push_json(out, limit(name.to_owned(), value, now, shares));
        }
    }
}

fn push_additional(out: &mut Vec<Json>, items: &Vec<Json>, now: u64, shares: &Vec<Known>)
    ensures
        json::trees_of(final(out)@) == json::trees_of(old(out)@) + shown_additional(
            first_items(json::trees_of(items@)),
            now,
            shares@,
        ),
{
    let ghost start = json::trees_of(out@);
    let ghost trees = json::trees_of(items@);
    let count: usize = if items.len() > MAX_ADDITIONAL {
        MAX_ADDITIONAL
    } else {
        items.len()
    };
    let mut i: usize = 0;
    proof {
        json::lemma_trees_of(items@);
        assert(trees.take(0) =~= Seq::empty());
    }
    while i < count
        invariant
            i <= count <= items@.len(),
            trees == json::trees_of(items@),
            trees.len() == items@.len(),
            forall|k: int| 0 <= k < items@.len() ==> #[trigger] trees[k] == json::tree_of(
                items@[k],
            ),
            json::trees_of(out@) == start + shown_additional(trees.take(i as int), now, shares@),
        decreases count - i,
    {
        assert(trees.take(i + 1).drop_last() == trees.take(i as int));
        assert(trees[i as int] == items@[i as int]@);
        let item = &items[i];
        if let Some(data) = item.get("rate_limit") {
            if data.is_object() {
                let name = match text(item.get("limit_name")) {
                    Some(name) => name,
                    None => match text(item.get("metered_feature")) {
                        Some(name) => name,
                        None => "其他额度".to_owned(),
                    },
                };
                push_json(out, limit(name, data, now, shares));
            }
        }
        i += 1;
    }
    assert(trees.take(trees.len() as int) == trees);
}

fn credits(payload: &Json) -> (r: Json)
    ensures
        r@ == shown_credits(payload@),
{
    match payload.get("credits") {
        Some(credits) => {
            if !credits.is_object() {
                return Json::Null;
            }
            let mut r = Json::object();
            r.set("has_credits".to_owned(), flag_json(flag_at(credits, "has_credits")));
            r.set("unlimited".to_owned(), flag_json(flag_at(credits, "unlimited")));
            r.set("balance".to_owned(), text_json(text(credits.get("balance"))));
            r
        },
        None => Json::Null,
    }
}

/// An answer as it is shown and remembered, or nothing where it says nothing about quotas. The
/// shares are those of the doubles that the answer holds.
pub fn normalize(payload: &Json, now: u64, shares: &Vec<Known>) -> (r: Option<Json>)
    ensures
        r is Some <==> is_usage(payload@),
        r matches Some(j) ==> j@ == shown(payload@, now, shares@),
{
    if payload.get("plan_type").is_none() && payload.get("rate_limit").is_none() && payload.get(
        "credits",
    ).is_none() {
        return None;
    }
    let mut limits: Vec<Json> = Vec::new();
    push_named(&mut limits, payload, "rate_limit", "Codex", now, shares);
    push_named(&mut limits, payload, "code_review_rate_limit", "代码审查", now, shares);
    if let Some(items) = payload.items_at("additional_rate_limits") {
        push_additional(&mut limits, items, now, shares);
    }
    let available = match payload.get("rate_limit_reset_credits") {
        Some(j) => j.number_at("available_count"),
        None => None,
    };
    let reached = match payload.get("spend_control") {
        Some(j) => flag_at(j, "reached"),
        None => None,
    };
    let mut r = Json::object();
    r.set("plan_type".to_owned(), text_json(text(payload.get("plan_type"))));
    r.set("fetched_at".to_owned(), Json::unsigned(now));
    r.set("limits".to_owned(), Json::Array(limits));
    r.set("credits".to_owned(), credits(payload));
    r.set("reset_credits".to_owned(), optional_json(available));
    r.set("spend_control_reached".to_owned(), flag_json(reached));
    Some(r)
}

fn push_used(out: &mut Vec<u64>, data: Option<&Json>)
    ensures
        final(out)@ == old(out)@ + used_in(
            match data {
                Some(j) => j@,
                None => Tree::Null,
            },
        ),
{
    if let Some(data) = data {
        if let Some(window) = data.get("primary_window") {
            if let Some(bits) = used_of(window) {
                out.push(bits);
            }
        }
        if let Some(window) = data.get("secondary_window") {
            if let Some(bits) = used_of(window) {
                out.push(bits);
            }
        }
    }
}

pub open spec fn listed(bits: Option<u64>) -> Seq<u64> {
    match bits {
        Some(bits) => seq![bits],
        None => Seq::empty(),
    }
}

/// The bits of the doubles in a limit.
pub open spec fn used_in(data: Tree) -> Seq<u64> {
    listed(used_bits(data.at("primary_window"@))) + listed(used_bits(data.at("secondary_window"@)))
}

/// The bits of the doubles in a list of additional limits.
pub open spec fn used_in_items(items: Seq<Tree>) -> Seq<u64>
    decreases items.len(),
{
    if items.len() == 0 {
        Seq::empty()
    } else {
        used_in_items(items.drop_last()) + used_in(items.last().at("rate_limit"@))
    }
}

/// The bits of the doubles in an answer.
pub open spec fn used_in_answer(payload: Tree) -> Seq<u64> {
    let named = used_in(payload.at("rate_limit"@)) + used_in(
        payload.at("code_review_rate_limit"@),
    );
    match payload.at("additional_rate_limits"@).items() {
        Some(items) => named + used_in_items(items),
        None => named,
    }
}

/// The bits of the doubles in an answer, whose shares are needed to show it.
pub fn used_shares(payload: &Json) -> (r: Vec<u64>)
    ensures
        r@ == used_in_answer(payload@),
{
    let mut out: Vec<u64> = Vec::new();
    push_used(&mut out, payload.get("rate_limit"));
    push_used(&mut out, payload.get("code_review_rate_limit"));
    if let Some(items) = payload.items_at("additional_rate_limits") {
        let ghost start = out@;
        let ghost trees = json::trees_of(items@);
        let mut i: usize = 0;
        assert(trees.take(0) =~= Seq::empty());
        while i < items.len()
            invariant
                i <= items@.len(),
                trees == json::trees_of(items@),
                trees.len() == items@.len(),
                forall|k: int| 0 <= k < items@.len() ==> #[trigger] trees[k] == items@[k]@,
                out@ == start + used_in_items(trees.take(i as int)),
            decreases items@.len() - i,
        {
            assert(trees.take(i + 1).drop_last() == trees.take(i as int));
            assert(trees.take(i + 1).last() == items@[i as int]@);
            push_used(&mut out, items[i].get("rate_limit"));
            i += 1;
        }
        assert(trees.take(trees.len() as int) == trees);
    }
    out
}

/// Why a quota cannot be asked for.
#[derive(Clone, Copy, Debug, PartialEq, Eq, Structural)]
pub enum CredentialError {
    NoToken,
    NoAccount,
    TokenFormat,
    AccountFormat,
}

impl CredentialError {
    pub open spec fn words(self) -> Seq<char> {
        match self {
            CredentialError::NoToken => "仅支持 ChatGPT 登录账号查询额度；API Key 账号暂不支持"@,
            CredentialError::NoAccount => "账号缺少身份信息，请重新授权"@,
            CredentialError::TokenFormat => "账号认证格式无效"@,
            CredentialError::AccountFormat => "账号身份格式无效"@,
        }
    }

    pub fn message(self) -> (r: &'static str)
        ensures
            r@ == self.words(),
    {
        match self {
            CredentialError::NoToken => "仅支持 ChatGPT 登录账号查询额度；API Key 账号暂不支持",
            CredentialError::NoAccount => "账号缺少身份信息，请重新授权",
            CredentialError::TokenFormat => "账号认证格式无效",
            CredentialError::AccountFormat => "账号身份格式无效",
        }
    }
}

pub open spec fn token_of(auth: Tree, key: Seq<char>) -> Option<Seq<char>> {
    match auth.at("tokens"@).text_at(key) {
        Some(s) => if s.len() > 0 {
            Some(s)
        } else {
            None
        },
        None => None,
    }
}

/// The headers with which a quota is asked for: the authorization and the account.
pub open spec fn query_headers(auth: Tree) -> Result<(Seq<char>, Seq<char>), CredentialError> {
    match (token_of(auth, "access_token"@), token_of(auth, "account_id"@)) {
        (None, _) => Err(CredentialError::NoToken),
        (Some(_), None) => Err(CredentialError::NoAccount),
        (Some(token), Some(account)) => if !header_map::is_value(
            encode_utf8("Bearer "@ + token),
        ) {
            Err(CredentialError::TokenFormat)
        } else if !header_map::is_value(encode_utf8(account)) {
            Err(CredentialError::AccountFormat)
        } else {
            Ok(("Bearer "@ + token, account))
        },
    }
}

pub open spec fn pair_result(r: Result<(String, String), CredentialError>) -> Result<
    (Seq<char>, Seq<char>),
    CredentialError,
> {
    match r {
        Ok((a, b)) => Ok((a@, b@)),
        Err(e) => Err(e),
    }
}

fn token_at(auth: &Json, key: &str) -> (r: Option<String>)
    ensures
        text::text_option(r) == token_of(auth@, key@),
{
    match auth.get("tokens") {
        Some(tokens) => match tokens.text_at(key) {
            Some(s) => if s.as_str().is_empty() {
                None
            } else {
                Some(s.clone())
            },
            None => None,
        },
        None => None,
    }
}

/// The headers with which a quota is asked for: the authorization and the account.
pub fn query(auth: &Json) -> (r: Result<(String, String), CredentialError>)
    ensures
        pair_result(r) == query_headers(auth@),
{
    let token = match token_at(auth, "access_token") {
        Some(token) => token,
        None => return Err(CredentialError::NoToken),
    };
    let account = match token_at(auth, "account_id") {
        Some(account) => account,
        None => return Err(CredentialError::NoAccount),
    };
    let bearer = join2("Bearer ", &token);
    if header_value(&bearer).is_none() {
        return Err(CredentialError::TokenFormat);
    }
    if header_value(&account).is_none() {
        return Err(CredentialError::AccountFormat);
    }
    Ok((bearer, account))
}

/// The message for an answer with an error; nothing of the answer's body is in it.
pub open spec fn error_words(status: u16) -> Seq<char> {
    if status == 401 {
        "账号认证已失效，请重新授权后查询"@
    } else if status == 403 {
        "上游拒绝额度查询，请检查账号权限或网络出口"@
    } else if status == 429 {
        "上游额度查询过于频繁，请稍后重试"@
    } else {
        "上游额度查询失败（HTTP "@ + text::decimal(status as nat) + "）"@
    }
}

/// What an answer with an error means.
pub open spec fn refused(status: u16, hint: Option<Seq<char>>, wall: u128) -> quota::Trouble {
    quota::Trouble {
        message: error_words(status),
        retry_after: match hint {
            Some(value) => match throttle::retry_delay(value, wall) {
                Some(delay) => Some(clock::whole_seconds(delay)),
                None => None,
            },
            None => None,
        },
        auth_invalid: status == 401,
    }
}

/// What an answer with an error means; `wall` counts nanoseconds since 1970.
pub fn refusal(status: u16, hint: Option<&str>, wall: u128) -> (r: Failure)
    ensures
        r@ == refused(
            status,
            match hint {
                Some(value) => Some(value@),
                None => None,
            },
            wall,
        ),
{
    let message = if status == 401 {
        "账号认证已失效，请重新授权后查询".to_owned()
    } else if status == 403 {
        "上游拒绝额度查询，请检查账号权限或网络出口".to_owned()
    } else if status == 429 {
        "上游额度查询过于频繁，请稍后重试".to_owned()
    } else {
        join3("上游额度查询失败（HTTP ", &number_text(status as u64), "）")
    };
    let retry_after = match hint {
        Some(value) => match retry_after(value, wall) {
            Some(delay) => Some(seconds_of(delay)),
            None => None,
        },
        None => None,
    };
    Failure { message, retry_after, auth_invalid: status == 401 }
}

/// What is shown has no other members than these, so that nothing that tells whose account it
/// is gets through.
pub proof fn law_only_quota_is_shown(payload: Tree, now: u64, shares: Seq<Known>, key: Seq<char>)
    ensures
        shown(payload, now, shares).field(key) is Some <==> key == "plan_type"@ || key
            == "fetched_at"@ || key == "limits"@ || key == "credits"@ || key == "reset_credits"@
            || key == "spend_control_reached"@,
{
}

/// What is shown of a window: its length, the share of it that is used and what is left as the
/// list has them for a share that is not below zero, and when it is reset, as an instant that is
/// given or after a time that is.
pub open spec fn shows_window(w: Tree, window: Tree, now: u64, shares: Seq<Known>) -> bool {
    let bits = window.at("used_percent"@).bits();
    let at = window.at("reset_at"@).number();
    let later = window.at("reset_after_seconds"@).number();
    &&& w.at("seconds"@).number() == window.at("limit_window_seconds"@).number()
    &&& forall|k: int|
        0 <= k < shares.len() && bits == Some((#[trigger] shares[k]).bits) && quota::rank(
            shares[k].bits,
        ) >= 0 && (forall|e: int|
            0 <= e < k ==> (#[trigger] shares[e]).bits != shares[k].bits)
            ==> w.at("used_percent"@) == shares[k].share@.used && w.at("remaining_percent"@)
            == shares[k].share@.remaining
    &&& (bits is None || quota::rank(bits->0) < 0 || (forall|k: int|
        0 <= k < shares.len() ==> (#[trigger] shares[k]).bits != bits->0)) ==> w.at(
        "used_percent"@,
    ) is Null && w.at("remaining_percent"@) is Null
    &&& at is Some && at->0 > 0 ==> w.at("reset_at"@).number() == at
    &&& (at is None || at->0 == 0) && later is Some && now + later->0 <= u64::MAX ==> w.at(
        "reset_at"@,
    ).number() == Some((now + later->0) as u64)
    &&& (at is None || at->0 == 0) && (later is None || now + later->0 > u64::MAX) ==> w.at(
        "reset_at"@,
    ) is Null
}

/// What is shown of a limit: its name, what is said of whether requests are allowed and whether
/// it is reached, and its windows, the primary one first, each only where it is an object.
pub open spec fn shows_limit(
    l: Tree,
    name: Seq<char>,
    data: Tree,
    now: u64,
    shares: Seq<Known>,
) -> bool {
    let primary = data.at("primary_window"@);
    let secondary = data.at("secondary_window"@);
    &&& l.at("name"@) == Tree::Text(name)
    &&& l.at("allowed"@).flag() == data.at("allowed"@).flag()
    &&& l.at("limit_reached"@).flag() == data.at("limit_reached"@).flag()
    &&& l.at("windows"@) matches Tree::Array(windows) && {
        &&& windows.len() == (if primary is Object {
            1int
        } else {
            0int
        }) + (if secondary is Object {
            1int
        } else {
            0int
        })
        &&& primary is Object ==> shows_window(windows[0], primary, now, shares)
        &&& secondary is Object ==> shows_window(
            windows[windows.len() - 1],
            secondary,
            now,
            shares,
        )
    }
}

/// The first of a limit's two names that is a text, cut after 128 characters.
pub open spec fn names_limit(name: Seq<char>, item: Tree) -> bool {
    let first = item.at("limit_name"@);
    let second = item.at("metered_feature"@);
    &&& first is Text ==> name == first->Text_0.take(
        if first->Text_0.len() < 128 {
            first->Text_0.len() as int
        } else {
            128
        },
    )
    &&& !(first is Text) && second is Text ==> name == second->Text_0.take(
        if second->Text_0.len() < 128 {
            second->Text_0.len() as int
        } else {
            128
        },
    )
    &&& !(first is Text) && !(second is Text) ==> name == "其他额度"@
}

proof fn lemma_share_of(shares: Seq<Known>, bits: u64)
    ensures
        share_of(shares, bits) is None <==> forall|k: int|
            0 <= k < shares.len() ==> (#[trigger] shares[k]).bits != bits,
        forall|k: int|
            0 <= k < shares.len() && (#[trigger] shares[k]).bits == bits && (forall|e: int|
                0 <= e < k ==> (#[trigger] shares[e]).bits != bits) ==> share_of(shares, bits)
                == Some(shares[k].share@),
    decreases shares.len(),
{
    if shares.len() > 0 {
        let front = shares.drop_last();
        let end = shares.len() - 1;
        lemma_share_of(front, bits);
        assert(shares[end] == shares.last());
        assert(forall|k: int| 0 <= k < end ==> #[trigger] shares[k] == front[k]);
        assert forall|k: int|
            0 <= k < shares.len() && (#[trigger] shares[k]).bits == bits && (forall|e: int|
                0 <= e < k ==> (#[trigger] shares[e]).bits != bits) implies share_of(shares, bits)
            == Some(shares[k].share@) by {
            if k < end {
                assert(front[k].bits == bits);
                assert forall|e: int| 0 <= e < k implies (#[trigger] front[e]).bits != bits by {
                    assert(shares[e].bits != bits);
                }
            } else {
                assert forall|e: int| 0 <= e < front.len() implies (#[trigger] front[e]).bits
                    != bits by {
                    assert(shares[e].bits != bits);
                }
            }
        }
        if share_of(shares, bits) is None {
            assert forall|k: int| 0 <= k < shares.len() implies (#[trigger] shares[k]).bits
                != bits by {
                if k < end {
                    assert(front[k].bits != bits);
                }
            }
        } else if share_of(front, bits) is Some {
            let k = choose|k: int| 0 <= k < front.len() && (#[trigger] front[k]).bits == bits;
            assert(shares[k].bits == bits);
        } else {
            assert(shares[end].bits == bits);
        }
    }
}

/// A window is shown as it is: with its length, its shares and its reset.
pub proof fn law_window_is_shown(window: Tree, now: u64, shares: Seq<Known>)
    ensures
        shows_window(shown_window(window, now, shares), window, now, shares),
{
    reveal_strlit("seconds");
    reveal_strlit("used_percent");
    reveal_strlit("remaining_percent");
    reveal_strlit("reset_at");
    assert("seconds"@.len() == 7 && "used_percent"@.len() == 12 && "remaining_percent"@.len() == 17
        && "reset_at"@.len() == 8);
    if window.at("used_percent"@).bits() is Some {
        lemma_share_of(shares, window.at("used_percent"@).bits()->0);
    }
}

/// A limit is shown with all of its windows that are objects, in their order, each as it is.
pub proof fn law_limit_is_shown(name: Seq<char>, data: Tree, now: u64, shares: Seq<Known>)
    ensures
        shows_limit(shown_limit(name, data, now, shares), name, data, now, shares),
{
    reveal_strlit("name");
    reveal_strlit("allowed");
    reveal_strlit("limit_reached");
    reveal_strlit("windows");
    assert("name"@.len() == 4 && "allowed"@.len() == 7 && "limit_reached"@.len() == 13
        && "windows"@.len() == 7);
    assert("allowed"@[0] == 'a' && "windows"@[0] == 'w');
    law_window_is_shown(data.at("primary_window"@), now, shares);
    law_window_is_shown(data.at("secondary_window"@), now, shares);
}

proof fn lemma_shown_additional(items: Seq<Tree>, now: u64, shares: Seq<Known>)
    ensures
        ({
            let kept = items.filter(|item: Tree| item.at("rate_limit"@) is Object);
            let out = shown_additional(items, now, shares);
            &&& out.len() == kept.len()
            &&& forall|m: int|
                0 <= m < out.len() ==> names_limit(
                    (#[trigger] out[m]).at("name"@)->Text_0,
                    kept[m],
                ) && shows_limit(
                    out[m],
                    out[m].at("name"@)->Text_0,
                    kept[m].at("rate_limit"@),
                    now,
                    shares,
                )
        }),
    decreases items.len(),
{
    reveal(Seq::filter);
    let p = |item: Tree| item.at("rate_limit"@) is Object;
    let kept = items.filter(p);
    let out = shown_additional(items, now, shares);
    if items.len() > 0 {
        let item = items.last();
        let front = items.drop_last();
        lemma_shown_additional(front, now, shares);
        let rest = shown_additional(front, now, shares);
        if item.at("rate_limit"@) is Object {
            let name = additional_name(item);
            law_limit_is_shown(name, item.at("rate_limit"@), now, shares);
            lemma_additional_name(item);
            assert(kept == front.filter(p).push(item));
            assert(out[out.len() - 1] == shown_limit(name, item.at("rate_limit"@), now, shares));
            assert(forall|m: int|
                0 <= m < rest.len() ==> #[trigger] out[m] == rest[m] && kept[m] == front.filter(
                    p,
                )[m]);
        }
    }
}

proof fn lemma_additional_name(item: Tree)
    ensures
        names_limit(additional_name(item), item),
{
    let first = item.at("limit_name"@);
    let second = item.at("metered_feature"@);
    if first is Text && first->Text_0.len() <= 128 {
        assert(first->Text_0.take(first->Text_0.len() as int) =~= first->Text_0);
    }
    if second is Text && second->Text_0.len() <= 128 {
        assert(second->Text_0.take(second->Text_0.len() as int) =~= second->Text_0);
    }
}

/// The limits that are shown are the main one, the one for code reviews and those of the first
/// sixteen additional ones that are objects, in this order, each under its name.
pub proof fn law_all_limits_are_shown(payload: Tree, now: u64, shares: Seq<Known>)
    ensures
        ({
            let main = payload.at("rate_limit"@);
            let review = payload.at("code_review_rate_limit"@);
            let more = match payload.at("additional_rate_limits"@) {
                Tree::Array(items) => items.take(
                    if items.len() < 16 {
                        items.len() as int
                    } else {
                        16
                    },
                ).filter(|item: Tree| item.at("rate_limit"@) is Object),
                _ => Seq::empty(),
            };
            let a: int = if main is Object {
                1
            } else {
                0
            };
            let b: int = if review is Object {
                1
            } else {
                0
            };
            shown(payload, now, shares).at("limits"@) matches Tree::Array(limits) && {
                &&& limits.len() == a + b + more.len()
                &&& main is Object ==> shows_limit(limits[0], "Codex"@, main, now, shares)
                &&& review is Object ==> shows_limit(limits[a], "代码审查"@, review, now, shares)
                &&& forall|m: int|
                    a + b <= m < limits.len() ==> names_limit(
                        (#[trigger] limits[m]).at("name"@)->Text_0,
                        more[m - a - b],
                    ) && shows_limit(
                        limits[m],
                        limits[m].at("name"@)->Text_0,
                        more[m - a - b].at("rate_limit"@),
                        now,
                        shares,
                    )
            }
        }),
{
    lemma_shown_names();
    let main = payload.at("rate_limit"@);
    let review = payload.at("code_review_rate_limit"@);
    law_limit_is_shown("Codex"@, main, now, shares);
    law_limit_is_shown("代码审查"@, review, now, shares);
    if let Tree::Array(items) = payload.at("additional_rate_limits"@) {
        let count: int = if items.len() < 16 {
            items.len() as int
        } else {
            16
        };
        assert(first_items(items) =~= items.take(count));
        lemma_shown_additional(items.take(count), now, shares);
    }
}

proof fn lemma_shown_names()
    ensures
        "plan_type"@.len() == 9,
        "fetched_at"@.len() == 10,
        "limits"@.len() == 6,
        "credits"@.len() == 7,
        "reset_credits"@.len() == 13,
        "spend_control_reached"@.len() == 21,
        "has_credits"@.len() == 11,
        "unlimited"@.len() == 9,
        "balance"@.len() == 7,
{
    reveal_strlit("plan_type");
    reveal_strlit("fetched_at");
    reveal_strlit("limits");
    reveal_strlit("credits");
    reveal_strlit("reset_credits");
    reveal_strlit("spend_control_reached");
    reveal_strlit("has_credits");
    reveal_strlit("unlimited");
    reveal_strlit("balance");
}

/// A text is shown up to its 128th character.
pub proof fn law_texts_are_cut(t: Tree)
    ensures
        shortened(t) is Some <==> t is Text,
        shortened(t) matches Some(s) ==> {
            &&& s.len() <= 128
            &&& t->Text_0.len() <= 128 ==> s == t->Text_0
            &&& t->Text_0.len() > 128 ==> s.len() == 128
            &&& s.is_prefix_of(t->Text_0)
        },
{
}

/// Beside the limits, the plan, the credits and whether the spending limit is reached are shown
/// as the answer has them, with the time at which it came.
pub proof fn law_plan_and_credits_are_shown(payload: Tree, now: u64, shares: Seq<Known>)
    ensures
        ({
            let view = shown(payload, now, shares);
            let credits = payload.at("credits"@);
            &&& view.at("plan_type"@).text() == shortened(payload.at("plan_type"@))
            &&& view.at("fetched_at"@).number() == Some(now)
            &&& view.at("reset_credits"@).number() == payload.at("rate_limit_reset_credits"@).at(
                "available_count"@,
            ).number()
            &&& view.at("spend_control_reached"@).flag() == payload.at("spend_control"@).at(
                "reached"@,
            ).flag()
            &&& view.at("credits"@) is Object <==> credits is Object
            &&& credits is Object ==> {
                &&& view.at("credits"@).at("has_credits"@).flag() == credits.at(
                    "has_credits"@,
                ).flag()
                &&& view.at("credits"@).at("unlimited"@).flag() == credits.at("unlimited"@).flag()
                &&& view.at("credits"@).at("balance"@).text() == shortened(credits.at("balance"@))
            }
        }),
{
    lemma_shown_names();
}

/// An answer counts as one about quotas exactly where it has a plan, a main limit or credits.
pub proof fn law_what_counts_as_an_answer(payload: Tree)
    ensures
        is_usage(payload) <==> (payload matches Tree::Object(m) && (m.contains_key("plan_type"@)
            || m.contains_key("rate_limit"@) || m.contains_key("credits"@))),
{
}

proof fn lemma_used_in_items(items: Seq<Tree>, k: int, bits: u64)
    requires
        0 <= k < items.len(),
        used_in(items[k].at("rate_limit"@)).contains(bits),
    ensures
        used_in_items(items).contains(bits),
    decreases items.len(),
{
    let rest = used_in_items(items.drop_last());
    let own = used_in(items.last().at("rate_limit"@));
    if k < items.len() - 1 {
        lemma_used_in_items(items.drop_last(), k, bits);
        let i = choose|i: int| 0 <= i < rest.len() && rest[i] == bits;
        assert((rest + own)[i] == bits);
    } else {
        let i = choose|i: int| 0 <= i < own.len() && own[i] == bits;
        assert((rest + own)[rest.len() + i] == bits);
    }
}

proof fn lemma_used_in(data: Tree, bits: u64)
    ensures
        used_in(data).contains(bits) <==> quota::rank(bits) >= 0 && (data.at("primary_window"@).at(
            "used_percent"@,
        ).bits() == Some(bits) || data.at("secondary_window"@).at("used_percent"@).bits() == Some(
            bits,
        )),
{
    let a = used_bits(data.at("primary_window"@));
    let b = used_bits(data.at("secondary_window"@));
    if a == Some(bits) {
        assert(used_in(data)[0] == bits);
    }
    if b == Some(bits) {
        assert(used_in(data)[used_in(data).len() - 1] == bits);
    }
}

/// Every share that is needed to show an answer is asked for: that of each window of the main
/// limit, of the one for code reviews and of every additional one.
pub proof fn law_every_share_is_asked_for(payload: Tree, data: Tree, bits: u64)
    requires
        quota::rank(bits) >= 0,
        data.at("primary_window"@).at("used_percent"@).bits() == Some(bits) || data.at(
            "secondary_window"@,
        ).at("used_percent"@).bits() == Some(bits),
        data == payload.at("rate_limit"@) || data == payload.at("code_review_rate_limit"@) || (
        payload.at("additional_rate_limits"@) matches Tree::Array(items) && exists|k: int|
            0 <= k < items.len() && data == (#[trigger] items[k]).at("rate_limit"@)),
    ensures
        used_in_answer(payload).contains(bits),
{
    let a = used_in(payload.at("rate_limit"@));
    let b = used_in(payload.at("code_review_rate_limit"@));
    let all = used_in_answer(payload);
    lemma_used_in(data, bits);
    let own = used_in(data);
    let i = choose|i: int| 0 <= i < own.len() && own[i] == bits;
    if data == payload.at("rate_limit"@) {
        assert(all[i] == bits);
    } else if data == payload.at("code_review_rate_limit"@) {
        assert(all[a.len() + i] == bits);
    } else if let Tree::Array(items) = payload.at("additional_rate_limits"@) {
        let k = choose|k: int|
            0 <= k < items.len() && data == (#[trigger] items[k]).at("rate_limit"@);
        lemma_used_in_items(items, k, bits);
        let more = used_in_items(items);
        let j = choose|j: int| 0 <= j < more.len() && more[j] == bits;
        assert(all[a.len() + b.len() + j] == bits);
    }
}

/// A quota is asked for with the token as a bearer and with the account, both as the credentials
/// have them, and only where both are there and can stand in a header.
pub proof fn law_credentials_go_into_the_query(auth: Tree)
    ensures
        ({
            let token = auth.at("tokens"@).at("access_token"@).text();
            let account = auth.at("tokens"@).at("account_id"@).text();
            let has_token = token is Some && token->0.len() > 0;
            let has_account = account is Some && account->0.len() > 0;
            let r = query_headers(auth);
            &&& r == Err::<(Seq<char>, Seq<char>), _>(CredentialError::NoToken) <==> !has_token
            &&& r == Err::<(Seq<char>, Seq<char>), _>(CredentialError::NoAccount) <==> has_token
                && !has_account
            &&& r matches Ok((bearer, id)) ==> has_token && has_account && bearer == "Bearer "@
                + token->0 && id == account->0 && header_map::is_value(encode_utf8(bearer))
                && header_map::is_value(encode_utf8(id))
            &&& has_token && has_account && header_map::is_value(
                encode_utf8("Bearer "@ + token->0),
            ) && header_map::is_value(encode_utf8(account->0)) ==> r is Ok
            &&& r == Err::<(Seq<char>, Seq<char>), _>(CredentialError::TokenFormat) <==> has_token
                && has_account && !header_map::is_value(encode_utf8("Bearer "@ + token->0))
        }),
{
}

/// The message for an answer with an error tells its own words for 401, 403 and 429, and for any
/// other status these and the status.
pub proof fn law_words_for_a_failed_query(status: u16)
    ensures
        status == 401 ==> error_words(status) == "账号认证已失效，请重新授权后查询"@,
        status == 403 ==> error_words(status) == "上游拒绝额度查询，请检查账号权限或网络出口"@,
        status == 429 ==> error_words(status) == "上游额度查询过于频繁，请稍后重试"@,
        status != 401 && status != 403 && status != 429 ==> error_words(status)
            == "上游额度查询失败（HTTP "@ + text::decimal(status as nat) + "）"@,
{
}

/// Credentials count as invalid exactly after a status of 401, and a query is tried again after the
/// whole seconds that the answer asks for.
pub proof fn law_what_a_failed_query_means(status: u16, hint: Option<Seq<char>>, wall: u128)
    ensures
        ({
            let t = refused(status, hint, wall);
            &&& t.auth_invalid <==> status == 401
            &&& t.message == error_words(status)
            &&& hint is None ==> t.retry_after is None
            &&& hint matches Some(value) ==> {
                &&& throttle::retry_delay(value, wall) is None ==> t.retry_after is None
                &&& throttle::retry_delay(value, wall) matches Some(delay) ==> (
                t.retry_after matches Some(seconds) && (delay
                    < 18_446_744_073_709_551_616_000_000_000 ==> seconds * 1_000_000_000 <= delay < (
                seconds + 1) * 1_000_000_000))
            }
        }),
{
    if let Some(value) = hint {
        if let Some(delay) = throttle::retry_delay(value, wall) {
            if delay < 18_446_744_073_709_551_616_000_000_000 {
                clock::law_seconds_add_up(0, 0, delay);
            }
        }
    }
}

} // verus!
