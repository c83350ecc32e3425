//! Rewrites the identity fields of a model request without changing its shape.
use crate::identity::Persona;
use crate::identity::SessionIdentity;
use crate::json;
use crate::json::read_json;
use crate::json::Json;
use crate::json::Tree;
use crate::text;
use crate::text::equal_folded;
use crate::text::join2;
use crate::text::same;
use vstd::prelude::*;
use vstd::utf8::*;

verus! {

broadcast use {vstd::seq_lib::group_seq_properties, vstd::map::group_map_axioms};

/// Why a request cannot be rewritten.
/// The words of another are a `String`, and in contracts its characters.
#[derive(Debug, PartialEq, Eq)]
pub enum RewriteError<S> {
    Malformed(S),
    MetadataShape,
    NestedType,
    NestedMalformed(S),
    NestedShape,
}

impl View for RewriteError<String> {
    type V = RewriteError<Seq<char>>;

    open spec fn view(&self) -> RewriteError<Seq<char>> {
        match *self {
            RewriteError::Malformed(s) => RewriteError::Malformed(s@),
            RewriteError::MetadataShape => RewriteError::MetadataShape,
            RewriteError::NestedType => RewriteError::NestedType,
            RewriteError::NestedMalformed(s) => RewriteError::NestedMalformed(s@),
            RewriteError::NestedShape => RewriteError::NestedShape,
        }
    }
}

impl RewriteError<Seq<char>> {
    pub open spec fn words(self) -> Seq<char> {
        match self {
            RewriteError::Malformed(s) => s,
            RewriteError::MetadataShape => "request client_metadata must be a JSON object"@,
            RewriteError::NestedType => "x-codex-turn-metadata must be a JSON string"@,
            RewriteError::NestedMalformed(s) => "invalid x-codex-turn-metadata JSON: "@ + s,
            RewriteError::NestedShape => "x-codex-turn-metadata must be a JSON object"@,
        }
    }
}

impl RewriteError<String> {
    pub fn message(&self) -> (r: String)
        ensures
            r@ == self@.words(),
    {
        match self {
            RewriteError::Malformed(s) => s.clone(),
            RewriteError::MetadataShape => "request client_metadata must be a JSON object".to_owned(),
            RewriteError::NestedType => "x-codex-turn-metadata must be a JSON string".to_owned(),
            RewriteError::NestedMalformed(s) => join2("invalid x-codex-turn-metadata JSON: ", s),
            RewriteError::NestedShape => "x-codex-turn-metadata must be a JSON object".to_owned(),
        }
    }
}

/// What an identity says for a field.
pub open spec fn identity_field(p: Persona, key: Seq<char>) -> Option<Seq<char>> {
    if key == "installation_id"@ || key == "x-codex-installation-id"@ {
        Some(p.installation_id)
    } else if key == "session_id"@ {
        Some(p.session_id)
    } else if key == "thread_id"@ {
        Some(p.thread_id)
    } else if key == "turn_id"@ {
        p.turn_id
    } else if key == "window_id"@ || key == "x-codex-window-id"@ || key == "context_window_id"@ {
        Some(p.window_id)
    } else if key == "root_turn_id"@ {
        p.root_turn_id
    } else if key == "parent_turn_id"@ {
        p.parent_turn_id
    } else {
        None
    }
}

/// What an identity says for a field.
pub fn identity_value<'a>(identity: &'a SessionIdentity, key: &str) -> (r: Option<&'a String>)
    ensures
        match r {
            Some(s) => identity_field(identity@, key@) == Some(s@),
            None => identity_field(identity@, key@) is None,
        },
{
    if same(key, "installation_id") || same(key, "x-codex-installation-id") {
        Some(&identity.installation_id)
    } else if same(key, "session_id") {
        Some(&identity.session_id)
    } else if same(key, "thread_id") {
        Some(&identity.thread_id)
    } else if same(key, "turn_id") {
        identity.turn_id.as_ref()
    } else if same(key, "window_id") || same(key, "x-codex-window-id") || same(
        key,
        "context_window_id",
    ) {
        Some(&identity.window_id)
    } else if same(key, "root_turn_id") {
        identity.root_turn_id.as_ref()
    } else if same(key, "parent_turn_id") {
        identity.parent_turn_id.as_ref()
    } else {
        None
    }
}

/// A field as the identity has it.
pub open spec fn replaced_field(p: Persona, key: Seq<char>, value: Tree) -> Tree {
    match identity_field(p, key) {
        Some(s) => Tree::Text(s),
        None => value,
    }
}

/// The fields of an object with those of the identity replaced; none is added.
pub open spec fn replaced(m: Map<Seq<char>, Tree>, p: Persona) -> Map<Seq<char>, Tree> {
    Map::new(|k: Seq<char>| m.contains_key(k), |k: Seq<char>| replaced_field(p, k, m[k]))
}

/// An object that a text spells out, with the fields of the identity replaced.
pub open spec fn replaced_text(s: Seq<char>, p: Persona) -> Result<Seq<char>, RewriteError<Seq<char>>> {
    match json::text_document(s) {
        None => Err(RewriteError::NestedMalformed(json::fault_text(encode_utf8(s)))),
        Some(t) => match t {
            Tree::Object(m) => Ok(json::json_string(Tree::Object(replaced(m, p)))),
            _ => Err(RewriteError::NestedShape),
        },
    }
}

/// The metadata of a request with the fields of the identity replaced, and those in its turn
/// metadata.
pub open spec fn rewritten_metadata(m: Map<Seq<char>, Tree>, p: Persona) -> Result<
    Map<Seq<char>, Tree>,
    RewriteError<Seq<char>>,
> {
    let next = replaced(m, p);
    if next.contains_key("x-codex-turn-metadata"@) {
        match next["x-codex-turn-metadata"@] {
            Tree::Text(s) => match replaced_text(s, p) {
                Ok(t) => Ok(next.insert("x-codex-turn-metadata"@, Tree::Text(t))),
                Err(e) => Err(e),
            },
            _ => Err(RewriteError::NestedType),
        }
    } else {
        Ok(next)
    }
}

/// A request body with the fields of the identity replaced.
pub open spec fn rewritten(body: Tree, p: Persona) -> Result<Tree, RewriteError<Seq<char>>> {
    match body {
        Tree::Object(m) => if m.contains_key("client_metadata"@) {
            match m["client_metadata"@] {
                Tree::Object(metadata) => match rewritten_metadata(metadata, p) {
                    Ok(next) => Ok(Tree::Object(m.insert("client_metadata"@, Tree::Object(next)))),
                    Err(e) => Err(e),
                },
                _ => Err(RewriteError::MetadataShape),
            }
        } else {
            Ok(body)
        },
        _ => Ok(body),
    }
}

pub open spec fn rewritten_bytes(body: Seq<u8>, p: Persona) -> Result<Seq<u8>, RewriteError<Seq<char>>> {
    match json::json_document(body) {
        None => Err(RewriteError::Malformed(json::fault_text(body))),
        Some(t) => match rewritten(t, p) {
            Ok(next) => Ok(json::json_text(next)),
            Err(e) => Err(e),
        },
    }
}

/// Replaces the fields of the identity in an object; anything else stays as it is.
fn replace_existing(value: &Json, identity: &SessionIdentity) -> (r: Json)
    ensures
        r@ == (match value@ {
            Tree::Object(m) => Tree::Object(replaced(m, identity@)),
            other => other,
        }),
{
    match value {
        Json::Object(fields) => {
            let ghost p = identity@;
            let mut out: Vec<(String, Json)> = Vec::new();
            let mut i: usize = 0;
            assert(fields@.take(0) =~= Seq::empty());
            assert(replaced(json::fields_of(fields@.take(0)), p) =~= Map::empty());
            while i < fields.len()
                invariant
                    i <= fields@.len(),
                    p == identity@,
                    json::fields_of(out@) == replaced(json::fields_of(fields@.take(i as int)), p),
                decreases fields@.len() - i,
            {
                let ghost before = out@;
                let name = fields[i].0.clone();
                let next = match identity_value(identity, &name) {
                    Some(s) => Json::Text(s.clone()),
                    None => fields[i].1.copy(),
                };
                proof {
                    let m = json::fields_of(fields@.take(i as int));
                    assert(fields@.take(i + 1).drop_last() == fields@.take(i as int));
                    let more = m.insert(name@, fields@[i as int].1@);
                    assert(replaced(more, p) =~= replaced(m, p).insert(name@, next@));
                }
                out.push((name, next));
                assert(out@.drop_last() == before);
                i += 1;
            }
            assert(fields@.take(fields@.len() as int) == fields@);
            Json::Object(out)
        },
        other => other.copy(),
    }
}

/// Replaces the fields of the identity in an object that a text spells out.
fn rewrite_text(s: &str, identity: &SessionIdentity) -> (r: Result<String, RewriteError<String>>)
    ensures
        match r {
            Ok(t) => replaced_text(s@, identity@) == Ok::<Seq<char>, RewriteError<Seq<char>>>(t@),
            Err(e) => replaced_text(s@, identity@) == Err::<Seq<char>, RewriteError<Seq<char>>>(
                e@,
            ),
        },
{
    match read_json(s.as_bytes()) {
        Err(words) => Err(RewriteError::NestedMalformed(words)),
        Ok(t) => if t.is_object() {
            Ok(replace_existing(&t, identity).to_text())
        } else {
            Err(RewriteError::NestedShape)
        },
    }
}

/// Rewrites the metadata of a request.
fn rewrite_metadata(metadata: &Json, identity: &SessionIdentity) -> (r: Result<Json, RewriteError<String>>)
    requires
        metadata@ is Object,
    ensures
        match rewritten_metadata(metadata@->Object_0, identity@) {
            Ok(m) => r matches Ok(j) && j@ == Tree::Object(m),
            Err(e) => r matches Err(f) && f@ == e,
        },
{
    let mut next = replace_existing(metadata, identity);
    let text = match next.get("x-codex-turn-metadata") {
        None => return Ok(next),
        Some(nested) => match nested.as_text() {
            None => return Err(RewriteError::NestedType),
            Some(s) => match rewrite_text(s, identity) {
                Ok(text) => text,
                Err(e) => return Err(e),
            },
        },
    };
    next.set("x-codex-turn-metadata".to_owned(), Json::Text(text));
    Ok(next)
}

/// Rewrites only identity fields that are present in a JSON body.
pub fn rewrite_body(body: &[u8], identity: &SessionIdentity) -> (r: Result<Vec<u8>, RewriteError<String>>)
    ensures
        match r {
            Ok(bytes) => rewritten_bytes(body@, identity@) == Ok::<Seq<u8>, RewriteError<Seq<char>>>(
                bytes@,
            ),
            Err(e) => rewritten_bytes(body@, identity@) == Err::<Seq<u8>, RewriteError<Seq<char>>>(
                e@,
            ),
        },
{
    let mut t = match read_json(body) {
        Err(words) => return Err(RewriteError::Malformed(words)),
        Ok(t) => t,
    };
    let next = match t.get("client_metadata") {
        None => return Ok(t.to_bytes()),
        Some(metadata) => {
            if !metadata.is_object() {
                return Err(RewriteError::MetadataShape);
            }
            match rewrite_metadata(metadata, identity) {
                Ok(next) => next,
                Err(e) => return Err(e),
            }
        },
    };
    t.set("client_metadata".to_owned(), next);
    Ok(t.to_bytes())
}

/// A header as the identity has it.
pub open spec fn rewritten_header(name: Seq<char>, value: Seq<char>, p: Persona) -> Result<
    Seq<char>,
    RewriteError<Seq<char>>,
> {
    if text::same_folded(name, "x-codex-turn-metadata"@) {
        replaced_text(value, p)
    } else {
        match identity_field(p, name) {
            Some(s) => Ok(s),
            None => Ok(value),
        }
    }
}

/// Rewrites only identity fields that are present in a request header.
pub fn rewrite_header(name: &str, value: &str, identity: &SessionIdentity) -> (r: Result<
    String,
    RewriteError<String>,
>)
    ensures
        match r {
            Ok(t) => rewritten_header(name@, value@, identity@) == Ok::<
                Seq<char>,
                RewriteError<Seq<char>>,
            >(t@),
            Err(e) => rewritten_header(name@, value@, identity@) == Err::<
                Seq<char>,
                RewriteError<Seq<char>>,
            >(e@),
        },
{
    if equal_folded(name, "x-codex-turn-metadata") {
        return rewrite_text(value, identity);
    }
    match identity_value(identity, name) {
        Some(s) => Ok(s.clone()),
        None => Ok(value.to_owned()),
    }
}

/// Rewriting adds no field and takes none away, leaves every field that is none of an identity
/// as it is, and does nothing more the second time.
pub proof fn law_shape_is_kept(m: Map<Seq<char>, Tree>, p: Persona)
    ensures
        replaced(m, p).dom() == m.dom(),
        forall|k: Seq<char>| #[trigger]
            m.contains_key(k) && identity_field(p, k) is None ==> replaced(m, p)[k] == m[k],
        replaced(replaced(m, p), p) == replaced(m, p),
{
    assert(replaced(m, p).dom() =~= m.dom());
    assert(replaced(replaced(m, p), p) =~= replaced(m, p));
}

/// No identity but the one given is left in a rewritten object.
pub proof fn law_no_other_identity_is_left(m: Map<Seq<char>, Tree>, p: Persona, key: Seq<char>)
    requires
        replaced(m, p).contains_key(key),
        identity_field(p, key) is Some,
    ensures
        replaced(m, p)[key] == Tree::Text(identity_field(p, key)->0),
{
}

/// A request without client metadata is left as it is, and what is outside the metadata of any
/// request is too.
pub proof fn law_rest_of_the_body_is_kept(m: Map<Seq<char>, Tree>, p: Persona, key: Seq<char>)
    requires
        rewritten(Tree::Object(m), p) is Ok,
        key != "client_metadata"@,
    ensures
        rewritten(Tree::Object(m), p)->Ok_0.field(key) == Tree::Object(m).field(key),
        !m.contains_key("client_metadata"@) ==> rewritten(Tree::Object(m), p)->Ok_0 == Tree::Object(
            m,
        ),
{
}

proof fn lemma_field_names()
    ensures
        "installation_id"@.len() == 15,
        "x-codex-installation-id"@.len() == 23,
        "session_id"@.len() == 10,
        "thread_id"@.len() == 9 && "thread_id"@[0] == 't',
        "turn_id"@.len() == 7,
        "window_id"@.len() == 9 && "window_id"@[0] == 'w',
        "x-codex-window-id"@.len() == 17 && "x-codex-window-id"@[0] == 'x',
        "context_window_id"@.len() == 17 && "context_window_id"@[0] == 'c',
        "root_turn_id"@.len() == 12,
        "parent_turn_id"@.len() == 14,
        "x-codex-turn-metadata"@.len() == 21,
{
    reveal_strlit("installation_id");
    reveal_strlit("x-codex-installation-id");
    reveal_strlit("session_id");
    reveal_strlit("thread_id");
    reveal_strlit("turn_id");
    reveal_strlit("window_id");
    reveal_strlit("x-codex-window-id");
    reveal_strlit("context_window_id");
    reveal_strlit("root_turn_id");
    reveal_strlit("parent_turn_id");
    reveal_strlit("x-codex-turn-metadata");
}

/// Every field of an identity that an object has is the one of the identity given: the
/// installation, the session, the thread, the window and, where the identity has them, the turn,
/// the turn at its root and the one before. Any other field stays as it is.
pub proof fn law_identity_fields_are_replaced(m: Map<Seq<char>, Tree>, p: Persona, key: Seq<char>)
    requires
        m.contains_key(key),
    ensures
        ({
            let after = replaced(m, p);
            &&& after.contains_key(key)
            &&& key == "installation_id"@ || key == "x-codex-installation-id"@ ==> after[key]
                == Tree::Text(p.installation_id)
            &&& key == "session_id"@ ==> after[key] == Tree::Text(p.session_id)
            &&& key == "thread_id"@ ==> after[key] == Tree::Text(p.thread_id)
            &&& key == "window_id"@ || key == "x-codex-window-id"@ || key == "context_window_id"@
                ==> after[key] == Tree::Text(p.window_id)
            &&& key == "turn_id"@ && p.turn_id is Some ==> after[key] == Tree::Text(p.turn_id->0)
            &&& key == "root_turn_id"@ && p.root_turn_id is Some ==> after[key] == Tree::Text(
                p.root_turn_id->0,
            )
            &&& key == "parent_turn_id"@ && p.parent_turn_id is Some ==> after[key] == Tree::Text(
                p.parent_turn_id->0,
            )
            &&& key == "turn_id"@ && p.turn_id is None ==> after[key] == m[key]
            &&& key == "root_turn_id"@ && p.root_turn_id is None ==> after[key] == m[key]
            &&& key == "parent_turn_id"@ && p.parent_turn_id is None ==> after[key] == m[key]
            &&& key != "installation_id"@ && key != "x-codex-installation-id"@ && key
                != "session_id"@ && key != "thread_id"@ && key != "window_id"@ && key
                != "x-codex-window-id"@ && key != "context_window_id"@ && key != "turn_id"@ && key
                != "root_turn_id"@ && key != "parent_turn_id"@ ==> after[key] == m[key]
        }),
{
    lemma_field_names();
}

/// A text that spells out an object spells out that object with the fields of the identity
/// replaced; a text that spells out none is refused.
pub proof fn law_spelled_out_fields_are_replaced(s: Seq<char>, p: Persona)
    ensures
        ({
            let document = json::json_document(encode_utf8(s));
            let r = replaced_text(s, p);
            &&& document matches Some(Tree::Object(m)) ==> r == Ok::<_, RewriteError<Seq<char>>>(
                json::json_string(Tree::Object(replaced(m, p))),
            )
            &&& document is None ==> r is Err && r->Err_0 is NestedMalformed
            &&& document is Some && !(document->0 is Object) ==> r == Err::<Seq<char>, _>(
                RewriteError::<Seq<char>>::NestedShape,
            )
        }),
{
}

/// The metadata of a request has the fields of the identity replaced, and so has the turn metadata
/// that it spells out; a request whose metadata is no object, or whose turn metadata is not the
/// text of one, is refused.
pub proof fn law_request_metadata_is_replaced(
    body: Map<Seq<char>, Tree>,
    p: Persona,
    key: Seq<char>,
)
    requires
        body.contains_key("client_metadata"@),
    ensures
        ({
            let r = rewritten(Tree::Object(body), p);
            match body["client_metadata"@] {
                Tree::Object(m) => {
                    let turn = m["x-codex-turn-metadata"@];
                    &&& !m.contains_key("x-codex-turn-metadata"@) ==> r is Ok
                        && r->Ok_0.at("client_metadata"@) == Tree::Object(replaced(m, p))
                    &&& m.contains_key("x-codex-turn-metadata"@) && !(turn is Text) ==> r == Err::<
                        Tree,
                        _,
                    >(RewriteError::<Seq<char>>::NestedType)
                    &&& m.contains_key("x-codex-turn-metadata"@) && turn is Text && replaced_text(
                        turn->Text_0,
                        p,
                    ) is Err ==> r == Err::<Tree, _>(replaced_text(turn->Text_0, p)->Err_0)
                    &&& m.contains_key("x-codex-turn-metadata"@) && turn is Text && replaced_text(
                        turn->Text_0,
                        p,
                    ) is Ok ==> {
                        &&& r is Ok
                        &&& r->Ok_0.at("client_metadata"@).at("x-codex-turn-metadata"@)
                            == Tree::Text(replaced_text(turn->Text_0, p)->Ok_0)
                        &&& key != "x-codex-turn-metadata"@ ==> r->Ok_0.at("client_metadata"@).at(
                            key,
                        ) == Tree::Object(replaced(m, p)).at(key)
                    }
                },
                _ => r == Err::<Tree, _>(RewriteError::<Seq<char>>::MetadataShape),
            }
        }),
{
    lemma_field_names();
}

/// A body is written again as the document that it is, rewritten; one that is no document is
/// refused.
pub proof fn law_bodies_are_rewritten(body: Seq<u8>, p: Persona)
    ensures
        json::json_document(body) matches Some(t) ==> {
            &&& rewritten(t, p) matches Ok(next) ==> rewritten_bytes(body, p) == Ok::<
                _,
                RewriteError<Seq<char>>,
            >(json::json_text(next))
            &&& rewritten(t, p) matches Err(e) ==> rewritten_bytes(body, p) == Err::<Seq<u8>, _>(e)
        },
        json::json_document(body) is None ==> rewritten_bytes(body, p) is Err && rewritten_bytes(
            body,
            p,
        )->Err_0 is Malformed,
{
}

/// A header that is a field of an identity has the one given; turn metadata, in whatever case it
/// is named, has its fields replaced; and any other header stays as it is.
pub proof fn law_headers_are_rewritten(name: Seq<char>, value: Seq<char>, p: Persona)
    ensures
        ({
            let r = rewritten_header(name, value, p);
            let metadata = text::lower(name) == text::lower("x-codex-turn-metadata"@);
            &&& metadata ==> r == replaced_text(value, p)
            &&& !metadata ==> r is Ok
            &&& !metadata && (name == "installation_id"@ || name == "x-codex-installation-id"@)
                ==> r->Ok_0 == p.installation_id
            &&& !metadata && name == "session_id"@ ==> r->Ok_0 == p.session_id
            &&& !metadata && name == "thread_id"@ ==> r->Ok_0 == p.thread_id
            &&& !metadata && (name == "window_id"@ || name == "x-codex-window-id"@ || name
                == "context_window_id"@) ==> r->Ok_0 == p.window_id
            &&& !metadata && name != "installation_id"@ && name != "x-codex-installation-id"@
                && name != "session_id"@ && name != "thread_id"@ && name != "window_id"@ && name
                != "x-codex-window-id"@ && name != "context_window_id"@ && name != "turn_id"@
                && name != "root_turn_id"@ && name != "parent_turn_id"@ ==> r->Ok_0 == value
        }),
{
    lemma_field_names();
}

} // verus!
