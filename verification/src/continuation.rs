//! What a request needs of earlier turns, and the account that it runs under.
use crate::digest;
use crate::digest::digest;
use crate::json;
use crate::json::read_json;
use crate::json::Json;
use crate::json::Tree;
use crate::signals;
use crate::text;
use crate::text::list_contains;
use vstd::prelude::*;
use vstd::utf8::*;

verus! {

broadcast use vstd::seq_lib::group_seq_properties;

/// The largest file with an account's credentials, in bytes.
pub const MAX_AUTH: usize = 1_048_576;

/// Whether a request can stand alone.
#[derive(Clone, Copy, Debug, PartialEq, Eq, Structural)]
pub enum Continuation {
    SelfContained,
    RequiresIdentity,
}

/// Whether a tool call with this identifier stands among the first `n` items.
pub open spec fn called_before(items: Seq<Tree>, n: int, id: Seq<char>) -> bool {
    exists|j: int|
        0 <= j < n && signals::is_tool_call(#[trigger] items[j]) && items[j].text_at("call_id"@)
            == Some(id)
}

/// Whether an input item only has a meaning to the identity that produced what it refers to:
/// content that is sealed for it, a reference to it, or the output of a tool that no earlier
/// item calls.
pub open spec fn bound_item(items: Seq<Tree>, i: int) -> bool {
    let item = items[i];
    ||| !(item.at("encrypted_content"@) is Null)
    ||| !(item.at("encrypted_function_args"@) is Null)
    ||| item.says("type"@, "item_reference"@)
    ||| signals::is_tool_output(item) && !(item.text_at("call_id"@) matches Some(id)
        && called_before(items, i, id))
}

pub open spec fn any_bound(items: Seq<Tree>) -> bool {
    exists|i: int| 0 <= i < items.len() && #[trigger] bound_item(items, i)
}

/// Whether a request needs the identity of its conversation's earlier turns.
pub open spec fn needs_identity(body: Tree, routing: Option<Seq<char>>) -> bool {
    ||| (routing matches Some(value) && value.len() > 0)
    ||| !(body.at("previous_response_id"@) is Null)
    ||| !(body.at("conversation"@) is Null)
    ||| (body.at("input"@).items() matches Some(items) && any_bound(items))
}

pub open spec fn continuation_of(body: Tree, routing: Option<Seq<char>>) -> Continuation {
    if needs_identity(body, routing) {
        Continuation::RequiresIdentity
    } else {
        Continuation::SelfContained
    }
}

impl Continuation {
    /// Reads a request body and its routing token.
    pub fn from_request(body: &Json, routing: Option<&str>) -> (r: Continuation)
        ensures
            r == continuation_of(
                body@,
                match routing {
                    Some(s) => Some(s@),
                    None => None,
                },
            ),
    {
        let routed = match routing {
            Some(value) => !value.is_empty(),
            None => false,
        };
        if routed || !body.lacks("previous_response_id") || !body.lacks("conversation") {
            return Continuation::RequiresIdentity;
        }
        let items = match body.items_at("input") {
            Some(items) => items,
            None => return Continuation::SelfContained,
        };
        let ghost trees = json::trees_of(items@);
        let mut calls: Vec<String> = Vec::new();
        let mut i: usize = 0;
        while i < items.len()
            invariant
                i <= items@.len(),
                trees == json::trees_of(items@),
                trees.len() == items@.len(),
                body@.at("input"@).items() == Some(trees),
                forall|k: int| 0 <= k < items@.len() ==> #[trigger] trees[k] == items@[k]@,
                forall|id: Seq<char>| #[trigger]
                    text::texts(calls@).contains(id) <==> called_before(trees, i as int, id),
                forall|k: int| 0 <= k < i ==> !#[trigger] bound_item(trees, k),
            decreases items@.len() - i,
        {
            let item = &items[i];
            assert(trees[i as int] == item@);
            if !item.lacks("encrypted_content") || !item.lacks("encrypted_function_args")
                || item.says("type", "item_reference") {
                assert(bound_item(trees, i as int));
                assert(any_bound(trees));
                return Continuation::RequiresIdentity;
            }
            if item.says("type", "function_call_output") || item.says(
                "type",
                "custom_tool_call_output",
            ) {
                let known = match item.text_at("call_id") {
                    Some(id) => list_contains(&calls, id),
                    None => false,
                };
                if !known {
                    assert(bound_item(trees, i as int));
                assert(any_bound(trees));
                    return Continuation::RequiresIdentity;
                }
            }
            assert(!bound_item(trees, i as int));
            let ghost before = text::texts(calls@);
            if item.says("type", "function_call") || item.says("type", "custom_tool_call") {
                if let Some(id) = item.text_at("call_id") {
                    calls.push(id.clone());
                    assert(text::texts(calls@) =~= before.push(id@));
                }
            }
            proof {
                lemma_called_step(trees, i as int, before, text::texts(calls@));
            }
            i += 1;
        }
        Continuation::SelfContained
    }
}

/// The calls among one more item.
proof fn lemma_called_step(
    items: Seq<Tree>,
    n: int,
    before: Seq<Seq<char>>,
    after: Seq<Seq<char>>,
)
    requires
        0 <= n < items.len(),
        forall|id: Seq<char>| #[trigger] before.contains(id) <==> called_before(items, n, id),
        after == (if signals::is_tool_call(items[n]) && items[n].text_at("call_id"@) is Some {
            before.push(items[n].text_at("call_id"@)->0)
        } else {
            before
        }),
    ensures
        forall|id: Seq<char>| #[trigger] after.contains(id) <==> called_before(items, n + 1, id),
{
    assert forall|id: Seq<char>| #[trigger] after.contains(id) implies called_before(
        items,
        n + 1,
        id,
    ) by {
        let k = choose|k: int| 0 <= k < after.len() && after[k] == id;
        if k < before.len() {
            assert(before[k] == id);
            assert(before.contains(id));
            let j = choose|j: int|
                0 <= j < n && signals::is_tool_call(#[trigger] items[j]) && items[j].text_at(
                    "call_id"@,
                ) == Some(id);
            assert(signals::is_tool_call(items[j]));
        } else {
            assert(signals::is_tool_call(items[n]));
        }
    }
    assert forall|id: Seq<char>| called_before(items, n + 1, id) implies #[trigger] after.contains(
        id,
    ) by {
        let j = choose|j: int|
            0 <= j < n + 1 && signals::is_tool_call(#[trigger] items[j]) && items[j].text_at(
                "call_id"@,
            ) == Some(id);
        if j < n {
            assert(called_before(items, n, id));
            assert(before.contains(id));
            let k = choose|k: int| 0 <= k < before.len() && before[k] == id;
            assert(after[k] == id);
        } else {
            assert(after[before.len() as int] == id);
        }
    }
}

/// A whole history stands alone: where nothing names an earlier turn and every output follows
/// its call, no identity is needed.
pub proof fn law_paired_history_stands_alone(body: Tree, items: Seq<Tree>)
    requires
        body.at("previous_response_id"@) is Null,
        body.at("conversation"@) is Null,
        body.at("input"@).items() == Some(items),
        forall|i: int|
            0 <= i < items.len() ==> (#[trigger] items[i]).at("encrypted_content"@) is Null
                && items[i].at("encrypted_function_args"@) is Null && !items[i].says(
                "type"@,
                "item_reference"@,
            ),
        forall|i: int|
            0 <= i < items.len() && signals::is_tool_output(#[trigger] items[i]) ==> (
            items[i].text_at("call_id"@) matches Some(id) && called_before(items, i, id)),
    ensures
        continuation_of(body, None) == Continuation::SelfContained,
{
    assert forall|i: int| 0 <= i < items.len() implies !#[trigger] bound_item(items, i) by {
        assert(items[i].at("encrypted_content"@) is Null);
    }
}

/// Why no account can be told from a file.
/// The words of another are a `String`, and in contracts its characters.
#[derive(Debug, PartialEq, Eq)]
pub enum AccountError<S> {
    TooLarge,
    Malformed(S),
    Missing,
}

impl View for AccountError<String> {
    type V = AccountError<Seq<char>>;

    open spec fn view(&self) -> AccountError<Seq<char>> {
        match *self {
            AccountError::TooLarge => AccountError::TooLarge,
            AccountError::Malformed(s) => AccountError::Malformed(s@),
            AccountError::Missing => AccountError::Missing,
        }
    }
}

impl AccountError<Seq<char>> {
    pub open spec fn words(self) -> Seq<char> {
        match self {
            AccountError::TooLarge => "auth file too large"@,
            AccountError::Malformed(s) => s,
            AccountError::Missing => "durable queue sessions require file-backed Codex authentication"@,
        }
    }
}

impl AccountError<String> {
    pub fn message(&self) -> (r: String)
        ensures
            r@ == self@.words(),
    {
        match self {
            AccountError::TooLarge => "auth file too large".to_owned(),
            AccountError::Malformed(s) => s.clone(),
            AccountError::Missing => "durable queue sessions require file-backed Codex authentication".to_owned(),
        }
    }
}

/// A text that is not empty.
pub open spec fn filled(t: Option<Seq<char>>) -> bool {
    t matches Some(s) && s.len() > 0
}

/// The digest of the account that credentials belong to.
pub open spec fn account_in(auth: Tree) -> Option<Seq<char>> {
    let id = auth.at("tokens"@).text_at("account_id"@);
    let key = auth.text_at("OPENAI_API_KEY"@);
    if filled(id) {
        Some(digest::pair_digest("chatgpt"@, id->0))
    } else if filled(key) {
        Some(digest::pair_digest("api-key"@, key->0))
    } else {
        None
    }
}

/// The digest of the account that a file's credentials belong to.
pub open spec fn account_of(data: Seq<u8>) -> Result<Seq<char>, AccountError<Seq<char>>> {
    if data.len() > MAX_AUTH {
        Err(AccountError::TooLarge)
    } else {
        match json::json_document(data) {
            None => Err(AccountError::Malformed(json::fault_text(data))),
            Some(auth) => match account_in(auth) {
                Some(account) => Ok(account),
                None => Err(AccountError::Missing),
            },
        }
    }
}

pub open spec fn account_view(r: Result<String, AccountError<String>>) -> Result<
    Seq<char>,
    AccountError<Seq<char>>,
> {
    match r {
        Ok(s) => Ok(s@),
        Err(e) => Err(e@),
    }
}

/// The digest of the account that credentials belong to.
pub fn account_from(auth: &Json) -> (r: Option<String>)
    ensures
        text::text_option(r) == account_in(auth@),
{
    let id = match auth.get("tokens") {
        Some(tokens) => tokens.text_at("account_id"),
        None => None,
    };
    if let Some(id) = id {
        if !id.as_str().is_empty() {
            return Some(digest::digest_pair("chatgpt", id));
        }
    }
    if let Some(key) = auth.text_at("OPENAI_API_KEY") {
        if !key.as_str().is_empty() {
            return Some(digest::digest_pair("api-key", key));
        }
    }
    None
}

/// The digest of the account that a file's credentials belong to.
pub fn account(data: &[u8]) -> (r: Result<String, AccountError<String>>)
    ensures
        account_view(r) == account_of(data@),
{
    if data.len() > MAX_AUTH {
        return Err(AccountError::TooLarge);
    }
    match read_json(data) {
        Err(words) => Err(AccountError::Malformed(words)),
        Ok(auth) => match account_from(&auth) {
            Some(account) => Ok(account),
            None => Err(AccountError::Missing),
        },
    }
}

/// An item of the type of a tool call, with an identifier.
pub open spec fn is_call_of(item: Tree, id: Tree) -> bool {
    &&& item.at("type"@) == Tree::Text("function_call"@) || item.at("type"@) == Tree::Text(
        "custom_tool_call"@,
    )
    &&& item.at("call_id"@) == id
}

/// An item of the type of a tool's output.
pub open spec fn is_output(item: Tree) -> bool {
    item.at("type"@) == Tree::Text("function_call_output"@) || item.at("type"@) == Tree::Text(
        "custom_tool_call_output"@,
    )
}

/// A request needs the identity of earlier turns exactly where it names one of them or a
/// conversation, comes with a routing token, or holds an item that is sealed, only refers to
/// another one, or is the output of a tool whose call no earlier item is.
pub proof fn law_what_needs_an_identity(body: Tree, routing: Option<Seq<char>>)
    ensures
        continuation_of(body, routing) == Continuation::RequiresIdentity <==> {
            ||| routing is Some && routing->0.len() > 0
            ||| !(body.at("previous_response_id"@) is Null)
            ||| !(body.at("conversation"@) is Null)
            ||| (body.at("input"@) matches Tree::Array(items) && exists|i: int|
                0 <= i < items.len() && {
                    ||| !((#[trigger] items[i]).at("encrypted_content"@) is Null)
                    ||| !(items[i].at("encrypted_function_args"@) is Null)
                    ||| items[i].at("type"@) == Tree::Text("item_reference"@)
                    ||| is_output(items[i]) && !(items[i].at("call_id"@) is Text && exists|j: int|
                        0 <= j < i && is_call_of(#[trigger] items[j], items[i].at("call_id"@)))
                })
        },
{
    if let Tree::Array(items) = body.at("input"@) {
        assert forall|i: int| 0 <= i < items.len() implies #[trigger] bound_item(items, i) == ({
            ||| !(items[i].at("encrypted_content"@) is Null)
            ||| !(items[i].at("encrypted_function_args"@) is Null)
            ||| items[i].at("type"@) == Tree::Text("item_reference"@)
            ||| is_output(items[i]) && !(items[i].at("call_id"@) is Text && exists|j: int|
                0 <= j < i && is_call_of(#[trigger] items[j], items[i].at("call_id"@)))
        }) by {
            lemma_called(items, i);
        }
        if any_bound(items) {
            let i = choose|i: int| 0 <= i < items.len() && #[trigger] bound_item(items, i);
            assert(bound_item(items, i));
            assert(items[i] == items[i]);
        }
        if exists|i: int|
            0 <= i < items.len() && {
                ||| !((#[trigger] items[i]).at("encrypted_content"@) is Null)
                ||| !(items[i].at("encrypted_function_args"@) is Null)
                ||| items[i].at("type"@) == Tree::Text("item_reference"@)
                ||| is_output(items[i]) && !(items[i].at("call_id"@) is Text && exists|j: int|
                    0 <= j < i && is_call_of(#[trigger] items[j], items[i].at("call_id"@)))
            } {
            let i = choose|i: int|
                0 <= i < items.len() && {
                    ||| !((#[trigger] items[i]).at("encrypted_content"@) is Null)
                    ||| !(items[i].at("encrypted_function_args"@) is Null)
                    ||| items[i].at("type"@) == Tree::Text("item_reference"@)
                    ||| is_output(items[i]) && !(items[i].at("call_id"@) is Text && exists|j: int|
                        0 <= j < i && is_call_of(#[trigger] items[j], items[i].at("call_id"@)))
                };
            assert(bound_item(items, i));
        }
    }
}

proof fn lemma_called(items: Seq<Tree>, i: int)
    requires
        0 <= i < items.len(),
    ensures
        items[i].at("call_id"@) matches Tree::Text(id) ==> (called_before(items, i, id)
            <==> exists|j: int|
            0 <= j < i && is_call_of(#[trigger] items[j], items[i].at("call_id"@))),
{
    if let Tree::Text(id) = items[i].at("call_id"@) {
        if called_before(items, i, id) {
            let j = choose|j: int|
                0 <= j < i && signals::is_tool_call(#[trigger] items[j]) && items[j].text_at(
                    "call_id"@,
                ) == Some(id);
            assert(is_call_of(items[j], items[i].at("call_id"@)));
        }
        if exists|j: int| 0 <= j < i && is_call_of(#[trigger] items[j], items[i].at("call_id"@)) {
            let j = choose|j: int|
                0 <= j < i && is_call_of(#[trigger] items[j], items[i].at("call_id"@));
            assert(signals::is_tool_call(items[j]));
        }
    }
}

/// Credentials belong to the account that their tokens name or, where they name none, to that of
/// their key; the two never count as one. A file that is too large, no document, or names neither
/// belongs to none.
pub proof fn law_whose_credentials_they_are(auth: Tree, data: Seq<u8>)
    ensures
        ({
            let id = auth.at("tokens"@).at("account_id"@);
            let key = auth.at("OPENAI_API_KEY"@);
            let has_id = id is Text && id->Text_0.len() > 0;
            let has_key = key is Text && key->Text_0.len() > 0;
            &&& has_id ==> account_in(auth) == Some(digest::pair_digest("chatgpt"@, id->Text_0))
            &&& !has_id && has_key ==> account_in(auth) == Some(
                digest::pair_digest("api-key"@, key->Text_0),
            )
            &&& !has_id && !has_key ==> account_in(auth) is None
        }),
        data.len() > 1_048_576 ==> account_of(data) == Err::<Seq<char>, _>(
            AccountError::<Seq<char>>::TooLarge,
        ),
        data.len() <= 1_048_576 && json::json_document(data) == Some(auth) ==> {
            &&& account_in(auth) is None ==> account_of(data) == Err::<Seq<char>, _>(
                AccountError::<Seq<char>>::Missing,
            )
            &&& account_in(auth) matches Some(account) ==> account_of(data) == Ok::<
                _,
                AccountError<Seq<char>>,
            >(account)
        },
        data.len() <= 1_048_576 && json::json_document(data) is None ==> account_of(data) == Err::<
            Seq<char>,
            _,
        >(AccountError::Malformed(json::fault_text(data))),
{
}

} // verus!
