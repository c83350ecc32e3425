//! Replaces what a client's metadata tells of its threads, turns and workspaces.
use crate::digest;
use crate::digest::digest_pair;
use crate::identity::Persona;
use crate::identity::SessionIdentity;
use crate::json;
use crate::json::parse_json;
use crate::json::parse_text;
use crate::json::Json;
use crate::json::Tree;
use crate::profiles::Binding;
use crate::profiles::Workspace;
use crate::profiles::WorkspaceProfile;
use crate::table;
use crate::table::Table;
use crate::text;
use crate::text::byte_len;
use crate::text::chars_of;
use crate::text::join3;
use crate::text::same;
use crate::text::text_of;
use vstd::prelude::*;
use vstd::utf8::*;

verus! {

broadcast use {
    vstd::seq_lib::group_seq_properties,
    vstd::map::group_map_axioms,
    vstd::set::group_set_axioms,
};

/// The longest turn metadata header, in bytes.
pub const MAX_HEADER: usize = 8192;

/// Why a request's metadata cannot be replaced.
#[derive(Clone, Copy, Debug, PartialEq, Eq, Structural)]
pub enum MetadataError {
    /// The body is no JSON.
    Body,
    /// Client metadata is no object.
    ClientMetadata,
    /// Turn metadata is not the text of an object.
    TurnMetadata,
    /// The body and the headers name different threads.
    Conflict,
    /// A turn, a workspace or a parent is not as it should be, or a parent is unknown.
    Field,
    /// The turn metadata header got too long.
    HeaderTooLarge,
}

impl MetadataError {
    pub open spec fn words(self) -> Seq<char> {
        match self {
            MetadataError::Body => "request body must be JSON"@,
            MetadataError::ClientMetadata => "request client_metadata must be a JSON object"@,
            MetadataError::TurnMetadata => "x-codex-turn-metadata must be the text of a JSON object"@,
            MetadataError::Conflict => "conflicting thread_id values"@,
            MetadataError::Field => "invalid turn, workspace or parent metadata"@,
            MetadataError::HeaderTooLarge => "rewritten turn metadata header too large"@,
        }
    }

    pub fn message(self) -> (r: &'static str)
        ensures
            r@ == self.words(),
    {
        match self {
            MetadataError::Body => "request body must be JSON",
            MetadataError::ClientMetadata => "request client_metadata must be a JSON object",
            MetadataError::TurnMetadata => "x-codex-turn-metadata must be the text of a JSON object",
            MetadataError::Conflict => "conflicting thread_id values",
            MetadataError::Field => "invalid turn, workspace or parent metadata",
            MetadataError::HeaderTooLarge => "rewritten turn metadata header too large",
        }
    }
}

/// The workspace and the parents that take the place of a client's.
pub struct Cover {
    pub workspace: Workspace,
    pub parents: Map<Seq<char>, Seq<char>>,
}

pub open spec fn cover(b: Option<&Binding>) -> Option<Cover> {
    match b {
        Some(b) => Some(
            Cover {
                workspace: b.workspace@,
                parents: b.parents@.map_values(|s: String| s@),
            },
        ),
        None => None,
    }
}

/// The characters of a digest in the form of an identifier with hyphens.
pub open spec fn hyphenated(hex: Seq<char>) -> Seq<char> {
    hex.subrange(0, 8) + "-"@ + hex.subrange(8, 12) + "-"@ + hex.subrange(12, 16) + "-"@
        + hex.subrange(16, 20) + "-"@ + hex.subrange(20, 32)
}

/// The identifier that takes the place of a client's turn or window: one for each of them in
/// an installation, wherever it is named.
pub open spec fn alias(p: Persona, value: Seq<char>) -> Seq<char> {
    hyphenated(digest::pair_digest(p.installation_id, value))
}

fn alias_of(identity: &SessionIdentity, value: &str) -> (r: String)
    ensures
        r@ == alias(identity@, value@),
{
    let hex = digest_pair(&identity.installation_id, value);
    let chars = chars_of(&hex);
    let a = text_of(&chars, 0, 8);
    let b = text_of(&chars, 8, 12);
    let c = text_of(&chars, 12, 16);
    let d = text_of(&chars, 16, 20);
    let e = text_of(&chars, 20, 32);
    let r = join3(&join3(&join3(&a, "-", &b), "-", &c), "-", &join3(&d, "-", &e));
    assert(r@ =~= alias(identity@, value@));
    r
}

/// The path that takes the place of a client's workspace.
pub open spec fn covered_path(p: Persona, w: Workspace, path: Seq<char>) -> Seq<char> {
    w.path + "/worktrees/"@ + digest::pair_digest(p.installation_id, path).take(12)
}

fn covered_path_of(identity: &SessionIdentity, w: &WorkspaceProfile, path: &str) -> (r: String)
    ensures
        r@ == covered_path(identity@, w@, path@),
{
    let hex = digest_pair(&identity.installation_id, path);
    let chars = chars_of(&hex);
    let short = text_of(&chars, 0, 12);
    assert(short@ =~= hex@.take(12));
    join3(&w.path, "/worktrees/", &short)
}

/// The addresses of a client's repositories, with those of the workspace in their place.
pub open spec fn covered_urls(m: Map<Seq<char>, Tree>, url: Seq<char>) -> Map<Seq<char>, Tree> {
    m.map_values(
        |t: Tree|
            if t is Null {
                Tree::Null
            } else {
                Tree::Text(url)
            },
    )
}

/// What a client tells of a workspace, one member at a time.
pub open spec fn covered_member(w: Workspace, key: Seq<char>, value: Tree) -> Tree {
    if value is Null {
        value
    } else if key == "associated_remote_urls"@ {
        match value {
            Tree::Object(m) => Tree::Object(covered_urls(m, w.remote_url)),
            other => other,
        }
    } else if key == "latest_git_commit_hash"@ {
        Tree::Text(w.commit)
    } else if key == "has_changes"@ {
        Tree::Bool(w.has_changes)
    } else {
        value
    }
}

/// Whether what a client tells of a workspace can be replaced.
pub open spec fn is_workspace(t: Tree) -> bool {
    t is Object && (t.at("associated_remote_urls"@) is Null || t.at(
        "associated_remote_urls"@,
    ) is Object)
}

pub open spec fn covered_workspace(w: Workspace, m: Map<Seq<char>, Tree>) -> Map<Seq<char>, Tree> {
    Map::new(|k: Seq<char>| m.contains_key(k), |k: Seq<char>| covered_member(w, k, m[k]))
}

/// Whether every workspace can be replaced.
pub open spec fn are_workspaces(t: Tree) -> bool {
    t matches Tree::Object(m) && forall|k: Seq<char>| #[trigger]
        m.contains_key(k) ==> is_workspace(m[k])
}

/// Whether workspaces are those of a client, each under another path.
pub open spec fn are_covered(
    p: Persona,
    w: Workspace,
    m: Map<Seq<char>, Tree>,
    n: Map<Seq<char>, Tree>,
) -> bool {
    &&& forall|k: Seq<char>| #[trigger] m.contains_key(k) ==> n.contains_key(covered_path(p, w, k))
    &&& forall|k: Seq<char>| #[trigger]
        n.contains_key(k) ==> exists|old: Seq<char>|
            {
                &&& #[trigger] m.contains_key(old)
                &&& k == covered_path(p, w, old)
                &&& m[old] is Object
                &&& n[k] == Tree::Object(covered_workspace(w, m[old]->Object_0))
            }
}

/// The fields whose values stand for a client's turns and windows.
pub open spec fn is_turn(key: Seq<char>) -> bool {
    key == "turn_id"@ || key == "root_turn_id"@ || key == "parent_turn_id"@ || key
        == "context_window_id"@
}

/// The identity's own value for a field.
pub open spec fn own_value(p: Persona, key: Seq<char>) -> Option<Seq<char>> {
    if key == "installation_id"@ || key == "x-codex-installation-id"@ {
        Some(p.installation_id)
    } else if key == "session_id"@ {
        Some(p.session_id)
    } else if key == "thread_id"@ {
        Some(p.thread_id)
    } else if key == "window_id"@ || key == "x-codex-window-id"@ {
        Some(p.window_id)
    } else {
        None
    }
}

/// Whether a field can be replaced.
pub open spec fn field_fits(c: Option<Cover>, key: Seq<char>, value: Tree) -> bool {
    if is_turn(key) {
        value is Null || value is Text
    } else if key == "parent_thread_id"@ && c is Some {
        value is Null || (value.text() matches Some(s) && c->0.parents.contains_key(s))
    } else if key == "workspaces"@ && c is Some {
        are_workspaces(value)
    } else {
        true
    }
}

/// Whether a field has the value that takes the place of a client's.
pub open spec fn field_replaced(
    p: Persona,
    c: Option<Cover>,
    key: Seq<char>,
    value: Tree,
    next: Tree,
) -> bool {
    if own_value(p, key) is Some {
        next == Tree::Text(own_value(p, key)->0)
    } else if is_turn(key) {
        next == (match value {
            Tree::Text(s) => Tree::Text(alias(p, s)),
            other => other,
        })
    } else if key == "parent_thread_id"@ && c is Some {
        next == (match value {
            Tree::Text(s) => Tree::Text(c->0.parents[s]),
            other => other,
        })
    } else if key == "workspaces"@ && c is Some {
        value is Object && (next matches Tree::Object(n) && are_covered(
            p,
            c->0.workspace,
            value->Object_0,
            n,
        ))
    } else {
        next == value
    }
}

/// Whether every field of an object can be replaced.
pub open spec fn fits(c: Option<Cover>, m: Map<Seq<char>, Tree>) -> bool {
    forall|k: Seq<char>| #[trigger] m.contains_key(k) ==> field_fits(c, k, m[k])
}

/// Whether an object is that of a client with its fields replaced; none is added and none is
/// lost.
pub open spec fn is_replaced(
    p: Persona,
    c: Option<Cover>,
    m: Map<Seq<char>, Tree>,
    n: Map<Seq<char>, Tree>,
) -> bool {
    &&& n.dom() == m.dom()
    &&& forall|k: Seq<char>| #[trigger] m.contains_key(k) ==> field_replaced(p, c, k, m[k], n[k])
}

fn copy_member(w: &WorkspaceProfile, key: &str, value: &Json) -> (r: Json)
    ensures
        r@ == covered_member(w@, key@, value@),
{
    if value.is_null() {
        return Json::Null;
    }
    if same(key, "associated_remote_urls") {
        return match value {
            Json::Object(fields) => cover_urls(fields, &w.remote_url),
            other => other.copy(),
        };
    }
    if same(key, "latest_git_commit_hash") {
        return Json::Text(w.commit.clone());
    }
    if same(key, "has_changes") {
        return Json::Bool(w.has_changes);
    }
    value.copy()
}

fn cover_urls(fields: &Vec<(String, Json)>, url: &str) -> (r: Json)
    ensures
        r@ == Tree::Object(covered_urls(json::fields_of(fields@), url@)),
{
    let ghost f = |t: Tree|
        if t is Null {
            Tree::Null
        } else {
            Tree::Text(url@)
        };
    let mut out: Vec<(String, Json)> = Vec::new();
    let mut i: usize = 0;
    assert(fields@.take(0) =~= Seq::empty());
    assert(json::fields_of(fields@.take(0)).map_values(f) =~= Map::empty());
    while i < fields.len()
        invariant
            i <= fields@.len(),
            f == (|t: Tree|
                if t is Null {
                    Tree::Null
                } else {
                    Tree::Text(url@)
                }),
            json::fields_of(out@) == json::fields_of(fields@.take(i as int)).map_values(f),
        decreases fields@.len() - i,
    {
        let ghost before = out@;
        let next = if fields[i].1.is_null() {
            Json::Null
        } else {
            Json::Text(url.to_owned())
        };
        proof {
            assert(fields@.take(i + 1).drop_last() == fields@.take(i as int));
            let m = json::fields_of(fields@.take(i as int));
            table::lemma_mapped_insert(m, f, fields@[i as int].0@, fields@[i as int].1@);
            assert(json::fields_of(fields@.take(i + 1)) == m.insert(
                fields@[i as int].0@,
                fields@[i as int].1@,
            ));
        }
        assert(next@ == f(fields@[i as int].1@));
        out.push((fields[i].0.clone(), next));
        proof {
            assert(out@.drop_last() == before);
            assert(json::fields_of(out@) == json::fields_of(before).insert(
                fields@[i as int].0@,
                next@,
            ));
        }
        i += 1;
    }
    assert(fields@.take(fields@.len() as int) == fields@);
    Json::Object(out)
}

fn cover_workspace(w: &WorkspaceProfile, fields: &Vec<(String, Json)>) -> (r: Json)
    ensures
        r@ == Tree::Object(covered_workspace(w@, json::fields_of(fields@))),
{
    let mut out: Vec<(String, Json)> = Vec::new();
    let mut i: usize = 0;
    assert(fields@.take(0) =~= Seq::empty());
    assert(covered_workspace(w@, json::fields_of(fields@.take(0))) =~= Map::empty());
    while i < fields.len()
        invariant
            i <= fields@.len(),
            json::fields_of(out@) == covered_workspace(
                w@,
                json::fields_of(fields@.take(i as int)),
            ),
        decreases fields@.len() - i,
    {
        let ghost before = out@;
        let name = fields[i].0.clone();
        let next = copy_member(w, &name, &fields[i].1);
        proof {
            assert(fields@.take(i + 1).drop_last() == fields@.take(i as int));
            let m = json::fields_of(fields@.take(i as int));
            assert(covered_workspace(w@, m.insert(name@, fields@[i as int].1@))
                =~= covered_workspace(w@, m).insert(name@, next@));
        }
        out.push((name, next));
        assert(out@.drop_last() == before);
        i += 1;
    }
    assert(fields@.take(fields@.len() as int) == fields@);
    Json::Object(out)
}

/// The members of an object are those that its fields name.
proof fn lemma_field_names(fields: Seq<(String, Json)>)
    ensures
        forall|k: Seq<char>| #[trigger]
            json::fields_of(fields).contains_key(k) <==> exists|i: int|
                0 <= i < fields.len() && (#[trigger] fields[i]).0@ == k,
    decreases fields.len(),
{
    if fields.len() > 0 {
        let front = fields.drop_last();
        lemma_field_names(front);
        assert(json::fields_of(fields) == json::fields_of(front).insert(
            fields.last().0@,
            json::tree_of(fields.last().1),
        ));
        assert forall|k: Seq<char>| #[trigger] json::fields_of(fields).contains_key(k) implies exists|
            i: int,
        |
            0 <= i < fields.len() && (#[trigger] fields[i]).0@ == k by {
            if k == fields.last().0@ {
                assert(fields[fields.len() - 1].0@ == k);
            } else {
                assert(json::fields_of(front).contains_key(k));
                let i = choose|i: int| 0 <= i < front.len() && (#[trigger] front[i]).0@ == k;
                assert(fields[i].0@ == k);
            }
        }
        assert forall|i: int| 0 <= i < fields.len() implies json::fields_of(fields).contains_key(
            (#[trigger] fields[i]).0@,
        ) by {
            if i < front.len() {
                assert(front[i].0@ == fields[i].0@);
            }
        }
    }
}

/// Replaces a client's workspaces; nothing where one of them is not as it should be.
fn cover_workspaces(identity: &SessionIdentity, w: &WorkspaceProfile, value: &Json) -> (r: Option<
    Json,
>)
    ensures
        r is Some <==> are_workspaces(value@),
        r matches Some(j) ==> j@ is Object && are_covered(
            identity@,
            w@,
            value@->Object_0,
            j@->Object_0,
        ),
{
    let fields = match value {
        Json::Object(fields) => fields,
        _ => return None,
    };
    let ghost m = json::fields_of(fields@);
    let ghost p = identity@;
    let mut out: Vec<(String, Json)> = Vec::new();
    let mut i: usize = 0;
    proof {
        lemma_field_names(fields@);
    }
    while i < fields.len()
        invariant
            i <= fields@.len(),
            p == identity@,
            value@ == Tree::Object(m),
            m == json::fields_of(fields@),
            forall|k: int| 0 <= k < i ==> is_workspace(m[(#[trigger] fields@[k]).0@]),
            forall|k: int|
                0 <= k < fields@.len() ==> m.contains_key((#[trigger] fields@[k]).0@),
            forall|k: int|
                0 <= k < i ==> json::fields_of(out@).contains_key(
                    covered_path(p, w@, (#[trigger] fields@[k]).0@),
                ),
            forall|k: Seq<char>| #[trigger]
                json::fields_of(out@).contains_key(k) ==> exists|old: Seq<char>|
                    {
                        &&& #[trigger] m.contains_key(old)
                        &&& k == covered_path(p, w@, old)
                        &&& m[old] is Object
                        &&& json::fields_of(out@)[k] == Tree::Object(
                            covered_workspace(w@, m[old]->Object_0),
                        )
                    },
        decreases fields@.len() - i,
    {
        let name = &fields[i].0;
        assert(m.contains_key(fields@[i as int].0@));
        let info = match value.get(name) {
            Some(info) => info,
            None => return None,
        };
        assert(info@ == m[name@]);
        let members = match info {
            Json::Object(members) => members,
            _ => {
                assert(!is_workspace(m[name@]));
                return None;
            },
        };
        let fine = match info.get("associated_remote_urls") {
            Some(urls) => urls.is_null() || urls.is_object(),
            None => true,
        };
        if !fine {
            assert(!is_workspace(m[name@]));
            return None;
        }
        let ghost before = json::fields_of(out@);
        let ghost list = out@;
        let path = covered_path_of(identity, w, name);
        let next = cover_workspace(w, members);
        out.push((path, next));
        proof {
            assert(out@.drop_last() == list);
            let after = json::fields_of(out@);
            assert(after == before.insert(path@, next@));
            assert forall|k: Seq<char>| #[trigger] after.contains_key(k) implies exists|
                old: Seq<char>,
            |
                {
                    &&& #[trigger] m.contains_key(old)
                    &&& k == covered_path(p, w@, old)
                    &&& m[old] is Object
                    &&& after[k] == Tree::Object(covered_workspace(w@, m[old]->Object_0))
                } by {
                if k == path@ {
                    assert(m.contains_key(name@));
                } else {
                    assert(before.contains_key(k));
                }
            }
        }
        i += 1;
    }
    proof {
        let n = json::fields_of(out@);
        assert forall|k: Seq<char>| #[trigger] m.contains_key(k) implies is_workspace(m[k])
            && n.contains_key(covered_path(p, w@, k)) by {
            let j = choose|j: int| 0 <= j < fields@.len() && (#[trigger] fields@[j]).0@ == k;
            assert(is_workspace(m[fields@[j].0@]));
        }
    }
    Some(Json::Object(out))
}

fn own_of(identity: &SessionIdentity, key: &str) -> (r: Option<String>)
    ensures
        text::text_option(r) == own_value(identity@, key@),
{
    if same(key, "installation_id") || same(key, "x-codex-installation-id") {
        Some(identity.installation_id.clone())
    } else if same(key, "session_id") {
        Some(identity.session_id.clone())
    } else if same(key, "thread_id") {
        Some(identity.thread_id.clone())
    } else if same(key, "window_id") || same(key, "x-codex-window-id") {
        Some(identity.window_id.clone())
    } else {
        None
    }
}

/// The names of an identity's fields stand for nothing else.
proof fn lemma_own_names(p: Persona)
    ensures
        own_value(p, "turn_id"@) is None,
        own_value(p, "root_turn_id"@) is None,
        own_value(p, "parent_turn_id"@) is None,
        own_value(p, "context_window_id"@) is None,
        own_value(p, "parent_thread_id"@) is None,
        own_value(p, "workspaces"@) is None,
        !is_turn("parent_thread_id"@),
        !is_turn("workspaces"@),
        "parent_thread_id"@ != "workspaces"@,
{
    reveal_strlit("installation_id");
    reveal_strlit("x-codex-installation-id");
    reveal_strlit("session_id");
    reveal_strlit("thread_id");
    reveal_strlit("window_id");
    reveal_strlit("x-codex-window-id");
    reveal_strlit("turn_id");
    reveal_strlit("root_turn_id");
    reveal_strlit("parent_turn_id");
    reveal_strlit("context_window_id");
    reveal_strlit("parent_thread_id");
    reveal_strlit("workspaces");
    assert("installation_id"@.len() == 15 && "x-codex-installation-id"@.len() == 23);
    assert("session_id"@.len() == 10 && "thread_id"@.len() == 9 && "window_id"@.len() == 9);
    assert("x-codex-window-id"@.len() == 17 && "turn_id"@.len() == 7);
    assert("root_turn_id"@.len() == 12 && "parent_turn_id"@.len() == 14);
    assert("context_window_id"@.len() == 17 && "parent_thread_id"@.len() == 16);
    assert("workspaces"@.len() == 10);
    assert("workspaces"@[0] == 'w' && "session_id"@[0] == 's');
    assert("context_window_id"@[0] == 'c' && "x-codex-window-id"@[0] == 'x');
}

/// The value that takes the place of a client's, or nothing where that is not as it should be.
fn replace_field(
    identity: &SessionIdentity,
    binding: Option<&Binding>,
    key: &str,
    value: &Json,
) -> (r: Option<Json>)
    requires
        binding matches Some(b) ==> b.parents.wf(),
    ensures
        r is Some <==> field_fits(cover(binding), key@, value@),
        r matches Some(j) ==> field_replaced(identity@, cover(binding), key@, value@, j@),
{
    proof {
        lemma_own_names(identity@);
    }
    if let Some(s) = own_of(identity, key) {
        return Some(Json::Text(s));
    }
    if same(key, "turn_id") || same(key, "root_turn_id") || same(key, "parent_turn_id") || same(
        key,
        "context_window_id",
    ) {
        return match value {
            Json::Null => Some(Json::Null),
            Json::Text(s) => Some(Json::Text(alias_of(identity, s))),
            _ => None,
        };
    }
    if let Some(b) = binding {
        let ghost parents = cover(binding)->0.parents;
        if same(key, "parent_thread_id") {
            return match value {
                Json::Null => Some(Json::Null),
                Json::Text(s) => match b.parents.get(s) {
                    Some(thread) => {
                        assert(parents.contains_key(s@));
                        Some(Json::Text(thread.clone()))
                    },
                    None => {
                        assert(!parents.contains_key(s@));
                        None
                    },
                },
                _ => None,
            };
        }
        if same(key, "workspaces") {
            return cover_workspaces(identity, &b.workspace, value);
        }
    }
    Some(value.copy())
}

/// Replaces what an object tells of a client; nothing where a field is not as it should be.
fn replace_object(identity: &SessionIdentity, binding: Option<&Binding>, value: &Json) -> (r: Option<
    Json,
>)
    requires
        binding matches Some(b) ==> b.parents.wf(),
        value@ is Object,
    ensures
        r is Some <==> fits(cover(binding), value@->Object_0),
        r matches Some(j) ==> j@ is Object && is_replaced(
            identity@,
            cover(binding),
            value@->Object_0,
            j@->Object_0,
        ),
{
    let fields = match value {
        Json::Object(fields) => fields,
        _ => return None,
    };
    let ghost m = json::fields_of(fields@);
    let ghost p = identity@;
    let ghost c = cover(binding);
    let mut out: Vec<(String, Json)> = Vec::new();
    let mut i: usize = 0;
    proof {
        lemma_field_names(fields@);
    }
    while i < fields.len()
        invariant
            i <= fields@.len(),
            binding matches Some(b) ==> b.parents.wf(),
            p == identity@,
            c == cover(binding),
            value@ == Tree::Object(m),
            m == json::fields_of(fields@),
            forall|k: int|
                0 <= k < fields@.len() ==> m.contains_key((#[trigger] fields@[k]).0@),
            forall|k: int|
                0 <= k < i ==> field_fits(
                    c,
                    (#[trigger] fields@[k]).0@,
                    m[fields@[k].0@],
                ),
            forall|k: int|
                0 <= k < i ==> json::fields_of(out@).contains_key((#[trigger] fields@[k]).0@),
            forall|k: Seq<char>| #[trigger]
                json::fields_of(out@).contains_key(k) ==> m.contains_key(k) && field_replaced(
                    p,
                    c,
                    k,
                    m[k],
                    json::fields_of(out@)[k],
                ),
        decreases fields@.len() - i,
    {
        let name = &fields[i].0;
        assert(m.contains_key(fields@[i as int].0@));
        let current = match value.get(name) {
            Some(current) => current,
            None => return None,
        };
        assert(current@ == m[name@]);
        let next = match replace_field(identity, binding, name, current) {
            Some(next) => next,
            None => {
                assert(!field_fits(c, name@, m[name@]));
                return None;
            },
        };
        let ghost list = out@;
        let ghost before = json::fields_of(out@);
        out.push((name.clone(), next));
        proof {
            assert(out@.drop_last() == list);
            assert(json::fields_of(out@) == before.insert(name@, next@));
        }
        i += 1;
    }
    proof {
        let n = json::fields_of(out@);
        assert forall|k: Seq<char>| #[trigger] m.contains_key(k) implies field_fits(c, k, m[k])
            && n.contains_key(k) by {
            let j = choose|j: int| 0 <= j < fields@.len() && (#[trigger] fields@[j]).0@ == k;
            assert(field_fits(c, fields@[j].0@, m[fields@[j].0@]));
        }
        assert(n.dom() =~= m.dom());
    }
    Some(Json::Object(out))
}

/// The name under which metadata of a turn travels.
pub open spec fn turn_name() -> Seq<char> {
    "x-codex-turn-metadata"@
}

/// The name under which a header names the parent thread.
pub open spec fn parent_name() -> Seq<char> {
    "x-codex-parent-thread-id"@
}

/// The object that a text spells out.
pub open spec fn object_in(s: Seq<char>) -> Option<Tree> {
    match json::text_document(s) {
        Some(t) => if t is Object {
            Some(t)
        } else {
            None
        },
        None => None,
    }
}

/// What carries metadata in a request.
#[derive(Debug)]
pub struct Carriers {
    pub body: Json,
    /// The turn metadata in the body.
    pub nested: Option<Json>,
    /// The turn metadata in a header.
    pub header: Option<Json>,
}

/// The model of a `Carriers`.
pub struct Carried {
    pub body: Tree,
    pub nested: Option<Tree>,
    pub header: Option<Tree>,
}

impl View for Carriers {
    type V = Carried;

    open spec fn view(&self) -> Carried {
        Carried {
            body: self.body@,
            nested: json::tree_option(self.nested),
            header: json::tree_option(self.header),
        }
    }
}

/// What carries metadata in a body.
pub open spec fn carried_in_body(body: Tree) -> Result<Option<Tree>, MetadataError> {
    match body.field("client_metadata"@) {
        None => Ok(None),
        Some(client) => if !(client is Object) {
            Err(MetadataError::ClientMetadata)
        } else {
            match client.field(turn_name()) {
                None => Ok(None),
                Some(t) => match t.text() {
                    Some(s) => match object_in(s) {
                        Some(nested) => Ok(Some(nested)),
                        None => Err(MetadataError::TurnMetadata),
                    },
                    None => Err(MetadataError::TurnMetadata),
                },
            }
        },
    }
}

pub open spec fn carried_in_headers(headers: Map<Seq<char>, String>) -> Result<
    Option<Tree>,
    MetadataError,
> {
    if headers.contains_key(turn_name()) {
        match object_in(headers[turn_name()]@) {
            Some(t) => Ok(Some(t)),
            None => Err(MetadataError::TurnMetadata),
        }
    } else {
        Ok(None)
    }
}

/// What carries metadata in a request.
pub open spec fn carried(body: Seq<u8>, headers: Map<Seq<char>, String>) -> Result<
    Carried,
    MetadataError,
> {
    match json::json_document(body) {
        None => Err(MetadataError::Body),
        Some(t) => match (carried_in_body(t), carried_in_headers(headers)) {
            (Err(e), _) => Err(e),
            (Ok(_), Err(e)) => Err(e),
            (Ok(nested), Ok(header)) => Ok(Carried { body: t, nested, header }),
        },
    }
}

pub open spec fn carried_view(r: Result<Carriers, MetadataError>) -> Result<
    Carried,
    MetadataError,
> {
    match r {
        Ok(c) => Ok(c@),
        Err(e) => Err(e),
    }
}

fn object_of(s: &str) -> (r: Option<Json>)
    ensures
        json::tree_option(r) == object_in(s@),
{
    match parse_text(s) {
        Some(t) => if t.is_object() {
            Some(t)
        } else {
            None
        },
        None => None,
    }
}

/// Reads what carries metadata in a request.
pub fn read(body: &[u8], headers: &Table<String, String>) -> (r: Result<Carriers, MetadataError>)
    requires
        headers.wf(),
    ensures
        carried_view(r) == carried(body@, headers@),
{
    let body = match parse_json(body) {
        Some(t) => t,
        None => return Err(MetadataError::Body),
    };
    let nested = match body.get("client_metadata") {
        None => None,
        Some(client) => {
            if !client.is_object() {
                return Err(MetadataError::ClientMetadata);
            }
            match client.get("x-codex-turn-metadata") {
                None => None,
                Some(t) => match t.as_text() {
                    Some(s) => match object_of(s) {
                        Some(nested) => Some(nested),
                        None => return Err(MetadataError::TurnMetadata),
                    },
                    None => return Err(MetadataError::TurnMetadata),
                },
            }
        },
    };
    let key = "x-codex-turn-metadata".to_owned();
    let header = match headers.get(&key) {
        None => None,
        Some(s) => match object_of(s) {
            Some(t) => Some(t),
            None => return Err(MetadataError::TurnMetadata),
        },
    };
    Ok(Carriers { body, nested, header })
}

pub open spec fn listed(s: Option<Seq<char>>) -> Seq<Seq<char>> {
    match s {
        Some(s) => seq![s],
        None => Seq::empty(),
    }
}

pub open spec fn named_in(t: Option<Tree>, key: Seq<char>) -> Seq<Seq<char>> {
    match t {
        Some(t) => listed(t.text_at(key)),
        None => Seq::empty(),
    }
}

/// What the carriers of a request's metadata say for a field.
pub open spec fn named(c: Carried, key: Seq<char>) -> Seq<Seq<char>> {
    listed(c.body.at("client_metadata"@).text_at(key)) + named_in(c.nested, key) + named_in(
        c.header,
        key,
    )
}

/// Whether all texts of a list are the same.
pub open spec fn agree(list: Seq<Seq<char>>) -> bool {
    forall|i: int, j: int|
        0 <= i < list.len() && 0 <= j < list.len() ==> #[trigger] list[i] == #[trigger] list[j]
}

/// The parent threads that a request names.
pub open spec fn parents_named(c: Carried, headers: Map<Seq<char>, String>) -> Seq<Seq<char>> {
    named(c, "parent_thread_id"@) + (if headers.contains_key(parent_name()) {
        seq![headers[parent_name()]@]
    } else {
        Seq::empty()
    })
}

fn push_named(out: &mut Vec<String>, t: Option<&Json>, key: &str)
    ensures
        text::texts(final(out)@) == text::texts(old(out)@) + named_in(
            match t {
                Some(j) => Some(j@),
                None => None,
            },
            key@,
        ),
{
    if let Some(t) = t {
        if let Some(s) = t.text_at(key) {
            out.push(s.clone());
            assert(text::texts(out@) =~= text::texts(old(out)@).push(s@));
        }
    }
}

impl Carriers {
    fn named(&self, key: &str) -> (r: Vec<String>)
        ensures
            text::texts(r@) == named(self@, key@),
    {
        let mut out: Vec<String> = Vec::new();
        assert(text::texts(out@) =~= Seq::empty());
        push_named(&mut out, self.body.get("client_metadata"), key);
        push_named(&mut out, self.nested.as_ref(), key);
        push_named(&mut out, self.header.as_ref(), key);
        assert(text::texts(out@) =~= named(self@, key@));
        out
    }

    /// The threads and the parent threads that a request names, to be bound to those of the
    /// server; nothing where it names different threads.
    pub fn sources(&self, headers: &Table<String, String>) -> (r: Result<
        (Vec<String>, Vec<String>),
        MetadataError,
    >)
        requires
            headers.wf(),
        ensures
            match r {
                Ok((threads, parents)) => agree(named(self@, "thread_id"@)) && text::texts(threads@)
                    == named(self@, "thread_id"@) && text::texts(parents@) == parents_named(
                    self@,
                    headers@,
                ),
                Err(e) => e == MetadataError::Conflict && !agree(named(self@, "thread_id"@)),
            },
    {
        let threads = self.named("thread_id");
        let ghost list = text::texts(threads@);
        let mut i: usize = 1;
        while i < threads.len()
            invariant
                1 <= i,
                i <= threads@.len() || threads@.len() == 0,
                list == text::texts(threads@),
                list == named(self@, "thread_id"@),
                forall|k: int| 0 <= k < i && k < list.len() ==> #[trigger] list[k] == list[0],
            decreases threads@.len() - i,
        {
            assert(list[i as int] == threads@[i as int]@);
            assert(list[0] == threads@[0]@);
            if !same(&threads[i], &threads[0]) {
                assert(list[i as int] != list[0]);
                return Err(MetadataError::Conflict);
            }
            i += 1;
        }
        assert(agree(list)) by {
            assert forall|a: int, b: int|
                0 <= a < list.len() && 0 <= b < list.len() implies #[trigger] list[a]
                == #[trigger] list[b] by {
                assert(list[a] == list[0]);
                assert(list[b] == list[0]);
            }
        }
        let mut parents = self.named("parent_thread_id");
        let key = "x-codex-parent-thread-id".to_owned();
        if let Some(parent) = headers.get(&key) {
            let ghost before = text::texts(parents@);
            parents.push(parent.clone());
            assert(text::texts(parents@) =~= before.push(parent@));
        }
        assert(text::texts(parents@) =~= parents_named(self@, headers@));
        Ok((threads, parents))
    }
}

/// Whether a text spells out a client's object with its fields replaced.
pub open spec fn text_replaced(p: Persona, c: Option<Cover>, old: Tree, s: Seq<char>) -> bool {
    old is Object && exists|n: Map<Seq<char>, Tree>| #[trigger]
        is_replaced(p, c, old->Object_0, n) && s == json::json_string(Tree::Object(n))
}

/// Whether a body's metadata is that of a client with its fields replaced.
pub open spec fn client_replaced(
    p: Persona,
    c: Option<Cover>,
    old: Map<Seq<char>, Tree>,
    nested: Option<Tree>,
    next: Map<Seq<char>, Tree>,
) -> bool {
    match nested {
        None => is_replaced(p, c, old, next),
        Some(t) => exists|n: Map<Seq<char>, Tree>, s: Seq<char>| #[trigger]
            is_replaced(p, c, old, n) && #[trigger] text_replaced(p, c, t, s) && next == n.insert(
                turn_name(),
                Tree::Text(s),
            ),
    }
}

/// A body that says whether its response is stored: by default it is not.
pub open spec fn with_store(m: Map<Seq<char>, Tree>) -> Map<Seq<char>, Tree> {
    if m.contains_key("store"@) {
        m
    } else {
        m.insert("store"@, Tree::Bool(false))
    }
}

/// Whether a body is that of a client with its metadata replaced.
pub open spec fn body_replaced(p: Persona, c: Option<Cover>, old: Carried, next: Tree) -> bool {
    match old.body {
        Tree::Object(m) => if m.contains_key("client_metadata"@) {
            exists|n: Map<Seq<char>, Tree>| #[trigger]
                client_replaced(p, c, m["client_metadata"@]->Object_0, old.nested, n) && next
                    == Tree::Object(with_store(m.insert("client_metadata"@, Tree::Object(n))))
        } else {
            next == Tree::Object(with_store(m))
        },
        other => next == other,
    }
}

/// Whether a header has the value that takes the place of a client's.
pub open spec fn header_replaced(
    p: Persona,
    c: Option<Cover>,
    metadata: Option<Tree>,
    name: Seq<char>,
    value: Seq<char>,
    next: Seq<char>,
) -> bool {
    if name == turn_name() {
        metadata is Some && text_replaced(p, c, metadata->0, next) && text::byte_length(next)
            <= MAX_HEADER
    } else if name == parent_name() && c is Some {
        next == c->0.parents[value]
    } else if own_value(p, name) is Some {
        next == own_value(p, name)->0
    } else if is_turn(name) {
        next == alias(p, value)
    } else {
        next == value
    }
}

pub open spec fn headers_replaced(
    p: Persona,
    c: Option<Cover>,
    metadata: Option<Tree>,
    old: Map<Seq<char>, String>,
    next: Map<Seq<char>, String>,
) -> bool {
    &&& next.dom() == old.dom()
    &&& forall|k: Seq<char>| #[trigger]
        old.contains_key(k) ==> header_replaced(p, c, metadata, k, old[k]@, next[k]@)
}

pub open spec fn part_fits(c: Option<Cover>, t: Option<Tree>) -> bool {
    t matches Some(t) ==> fits(c, t->Object_0)
}

/// Whether everything in a request's metadata can be replaced.
pub open spec fn request_fits(c: Option<Cover>, old: Carried, headers: Map<Seq<char>, String>) -> bool {
    &&& old.body.field("client_metadata"@) matches Some(client) ==> fits(c, client->Object_0)
    &&& part_fits(c, old.nested)
    &&& part_fits(c, old.header)
    &&& headers.contains_key(parent_name()) && c is Some ==> c->0.parents.contains_key(
        headers[parent_name()]@,
    )
}

/// A request whose metadata was replaced.
#[derive(Debug)]
pub struct RewrittenRequest {
    pub body: Json,
    pub headers: Table<String, String>,
}

impl Carriers {
    /// Whether what carries metadata is as it was read: objects, and the turn metadata in the
    /// body where the body has any.
    pub open spec fn wf(&self) -> bool {
        &&& self@.nested matches Some(t) ==> t is Object
        &&& self@.header matches Some(t) ==> t is Object
        &&& self@.body.field("client_metadata"@) matches Some(client) ==> client is Object
        &&& self@.nested is Some ==> self@.body.field("client_metadata"@) is Some
    }

    fn replace_body(&self, identity: &SessionIdentity, binding: Option<&Binding>) -> (r: Option<
        Json,
    >)
        requires
            self.wf(),
            binding matches Some(b) ==> b.parents.wf(),
        ensures
            r is Some <==> (self@.body.field("client_metadata"@) matches Some(client) ==> fits(
                cover(binding),
                client->Object_0,
            )) && part_fits(cover(binding), self@.nested),
            r matches Some(j) ==> body_replaced(identity@, cover(binding), self@, j@),
    {
        let ghost p = identity@;
        let ghost c = cover(binding);
        let mut next = self.body.copy();
        if let Some(client) = self.body.get("client_metadata") {
            let ghost old = client@->Object_0;
            let mut metadata = match replace_object(identity, binding, client) {
                Some(metadata) => metadata,
                None => return None,
            };
            let ghost n = metadata@->Object_0;
            assert(is_replaced(p, c, old, n));
            if let Some(nested) = &self.nested {
                let replaced = match replace_object(identity, binding, nested) {
                    Some(replaced) => replaced,
                    None => return None,
                };
                let text = replaced.to_text();
                proof {
                    assert(is_replaced(p, c, nested@->Object_0, replaced@->Object_0));
                    assert(text_replaced(p, c, nested@, text@));
                }
                metadata.set("x-codex-turn-metadata".to_owned(), Json::Text(text));
                assert(client_replaced(p, c, old, self@.nested, metadata@->Object_0)) by {
                    assert(is_replaced(p, c, old, n));
                    assert(text_replaced(p, c, nested@, text@));
                }
            }
            assert(client_replaced(p, c, old, self@.nested, metadata@->Object_0));
            next.set("client_metadata".to_owned(), metadata);
        }
        if next.is_object() && next.get("store").is_none() {
            next.set("store".to_owned(), Json::Bool(false));
        }
        Some(next)
    }

    fn replace_header(
        &self,
        identity: &SessionIdentity,
        binding: Option<&Binding>,
        name: &str,
        value: &String,
    ) -> (r: Result<String, MetadataError>)
        requires
            self.wf(),
            binding matches Some(b) ==> b.parents.wf(),
            name@ == turn_name() ==> self@.header is Some,
        ensures
            r matches Ok(next) ==> header_replaced(
                identity@,
                cover(binding),
                self@.header,
                name@,
                value@,
                next@,
            ),
            r matches Err(e) ==> e == MetadataError::HeaderTooLarge || e == MetadataError::Field,
            r is Err && r->Err_0 == MetadataError::Field ==> (name@ == turn_name() && !part_fits(
                cover(binding),
                self@.header,
            )) || (name@ == parent_name() && cover(binding) is Some && !cover(
                binding,
            )->0.parents.contains_key(value@)),
            r is Err && r->Err_0 == MetadataError::HeaderTooLarge ==> name@ == turn_name()
                && part_fits(cover(binding), self@.header) && exists|s: Seq<char>| #[trigger]
                text_replaced(identity@, cover(binding), self@.header->0, s) && text::byte_length(s)
                    > MAX_HEADER,
            r is Ok && name@ == turn_name() ==> part_fits(cover(binding), self@.header),
            r is Ok && name@ == parent_name() && cover(binding) is Some ==> cover(
                binding,
            )->0.parents.contains_key(value@),
    {
        proof {
            lemma_header_names(identity@);
        }
        if same(name, "x-codex-turn-metadata") {
            return match &self.header {
                None => Err(MetadataError::Field),
                Some(metadata) => match replace_object(identity, binding, metadata) {
                    None => Err(MetadataError::Field),
                    Some(replaced) => {
                        let text = replaced.to_text();
                        proof {
                            assert(is_replaced(
                                identity@,
                                cover(binding),
                                metadata@->Object_0,
                                replaced@->Object_0,
                            ));
                            assert(text_replaced(
                                identity@,
                                cover(binding),
                                self@.header->0,
                                text@,
                            ));
                        }
                        if byte_len(&text) > MAX_HEADER {
                            Err(MetadataError::HeaderTooLarge)
                        } else {
                            Ok(text)
                        }
                    },
                },
            };
        }
        if same(name, "x-codex-parent-thread-id") {
            return match binding {
                None => Ok(value.clone()),
                Some(b) => match b.parents.get(value) {
                    Some(thread) => {
                        assert(cover(binding)->0.parents.contains_key(value@));
                        Ok(thread.clone())
                    },
                    None => {
                        assert(!cover(binding)->0.parents.contains_key(value@));
                        Err(MetadataError::Field)
                    },
                },
            };
        }
        if let Some(s) = own_of(identity, name) {
            return Ok(s);
        }
        if same(name, "turn_id") || same(name, "root_turn_id") || same(name, "parent_turn_id")
            || same(name, "context_window_id") {
            return Ok(alias_of(identity, value));
        }
        Ok(value.clone())
    }

    /// Replaces what a request tells of its client. The workspace and the parents come from a
    /// binding; without one they are left as they are.
    pub fn rewrite(
        &self,
        headers: &Table<String, String>,
        identity: &SessionIdentity,
        binding: Option<&Binding>,
    ) -> (r: Result<RewrittenRequest, MetadataError>)
        requires
            self.wf(),
            headers.wf(),
            headers@.contains_key(turn_name()) <==> self@.header is Some,
            binding matches Some(b) ==> b.parents.wf(),
        ensures
            r matches Ok(next) ==> {
                &&& request_fits(cover(binding), self@, headers@)
                &&& next.headers.wf()
                &&& body_replaced(identity@, cover(binding), self@, next.body@)
                &&& headers_replaced(
                    identity@,
                    cover(binding),
                    self@.header,
                    headers@,
                    next.headers@,
                )
            },
            r matches Err(e) ==> {
                ||| e == MetadataError::Field && !request_fits(cover(binding), self@, headers@)
                ||| e == MetadataError::HeaderTooLarge && self@.header is Some && exists|
                    s: Seq<char>,
                |
                    #[trigger] text_replaced(identity@, cover(binding), self@.header->0, s)
                        && text::byte_length(s) > MAX_HEADER
            },
    {
        let ghost p = identity@;
        let ghost c = cover(binding);
        let body = match self.replace_body(identity, binding) {
            Some(body) => body,
            None => return Err(MetadataError::Field),
        };
        let ghost all = headers.entries@;
        let mut out: Table<String, String> = Table { entries: Vec::new() };
        let mut i: usize = 0;
        proof {
            table::lemma_map_of(all);
        }
        while i < headers.entries.len()
            invariant
                i <= headers.entries@.len(),
                self.wf(),
                headers.wf(),
                all == headers.entries@,
                p == identity@,
                c == cover(binding),
                headers@.contains_key(turn_name()) <==> self@.header is Some,
                binding matches Some(b) ==> b.parents.wf(),
                out.entries@.len() == i,
                forall|k: int| 0 <= k < i ==> (#[trigger] out.entries@[k]).0@ == all[k].0@,
                forall|k: int|
                    0 <= k < i ==> header_replaced(
                        p,
                        c,
                        self@.header,
                        all[k].0@,
                        all[k].1@,
                        (#[trigger] out.entries@[k]).1@,
                    ),
                forall|k: int|
                    0 <= k < i && (#[trigger] all[k]).0@ == turn_name() ==> part_fits(
                        c,
                        self@.header,
                    ),
                forall|k: int|
                    0 <= k < i && (#[trigger] all[k]).0@ == parent_name() && c is Some
                        ==> c->0.parents.contains_key(all[k].1@),
            decreases headers.entries@.len() - i,
        {
            let name = headers.entries[i].0.clone();
            proof {
                table::lemma_map_of(all);
                assert(headers@.contains_key(all[i as int].0@));
                assert(headers@[all[i as int].0@] == all[i as int].1);
            }
            let next = match self.replace_header(identity, binding, &name, &headers.entries[i].1) {
                Ok(next) => next,
                Err(e) => return Err(e),
            };
            out.entries.push((name, next));
            i += 1;
        }
        proof {
            let done = out.entries@;
            assert forall|a: int, b: int| 0 <= a < b < done.len() implies (#[trigger] done[a]).0@
                != (#[trigger] done[b]).0@ by {
                assert(all[a].0@ != all[b].0@);
            }
            table::lemma_map_of(done);
            table::lemma_map_of(all);
            assert(out@.dom() =~= headers@.dom()) by {
                assert forall|k: Seq<char>| out@.dom().contains(k) <==> headers@.dom().contains(
                    k,
                ) by {
                    if out@.contains_key(k) {
                        let j = choose|j: int| 0 <= j < done.len() && (#[trigger] done[j]).0@ == k;
                        assert(all[j].0@ == k);
                    }
                    if headers@.contains_key(k) {
                        let j = choose|j: int| 0 <= j < all.len() && (#[trigger] all[j]).0@ == k;
                        assert(done[j].0@ == k);
                    }
                }
            }
            assert forall|k: Seq<char>| #[trigger] headers@.contains_key(k) implies header_replaced(
                p,
                c,
                self@.header,
                k,
                headers@[k]@,
                out@[k]@,
            ) by {
                let j = choose|j: int| 0 <= j < all.len() && (#[trigger] all[j]).0@ == k;
                assert(done[j].0@ == k);
                assert(headers@[all[j].0@] == all[j].1);
                assert(out@[done[j].0@] == done[j].1);
            }
            if headers@.contains_key(turn_name()) {
                let j = choose|j: int| 0 <= j < all.len() && (#[trigger] all[j]).0@ == turn_name();
                assert(all[j].0@ == turn_name());
            }
            if headers@.contains_key(parent_name()) {
                let j = choose|j: int|
                    0 <= j < all.len() && (#[trigger] all[j]).0@ == parent_name();
                assert(headers@[all[j].0@] == all[j].1);
            }
        }
        Ok(RewrittenRequest { body, headers: out })
    }
}

proof fn lemma_header_names(p: Persona)
    ensures
        turn_name() != parent_name(),
        own_value(p, parent_name()) is None,
        !is_turn(parent_name()),
{
    reveal_strlit("x-codex-turn-metadata");
    reveal_strlit("x-codex-parent-thread-id");
    reveal_strlit("installation_id");
    reveal_strlit("x-codex-installation-id");
    reveal_strlit("session_id");
    reveal_strlit("thread_id");
    reveal_strlit("window_id");
    reveal_strlit("x-codex-window-id");
    reveal_strlit("turn_id");
    reveal_strlit("root_turn_id");
    reveal_strlit("parent_turn_id");
    reveal_strlit("context_window_id");
    assert(turn_name().len() == 21);
    assert(parent_name().len() == 24);
}

/// Replaces what a request tells of its client, in its body and in its headers alike.
pub fn rewrite_request(
    body: &[u8],
    headers: &Table<String, String>,
    identity: &SessionIdentity,
    binding: Option<&Binding>,
) -> (r: Result<RewrittenRequest, MetadataError>)
    requires
        headers.wf(),
        binding matches Some(b) ==> b.parents.wf(),
    ensures
        match carried(body@, headers@) {
            Err(e) => r == Err::<RewrittenRequest, MetadataError>(e),
            Ok(old) => if !agree(named(old, "thread_id"@)) {
                r == Err::<RewrittenRequest, MetadataError>(MetadataError::Conflict)
            } else if !request_fits(cover(binding), old, headers@) {
                r is Err
            } else {
                match r {
                    Ok(next) => next.headers.wf() && body_replaced(
                        identity@,
                        cover(binding),
                        old,
                        next.body@,
                    ) && headers_replaced(
                        identity@,
                        cover(binding),
                        old.header,
                        headers@,
                        next.headers@,
                    ),
                    Err(e) => e == MetadataError::HeaderTooLarge && old.header is Some && exists|
                        s: Seq<char>,
                    |
                        #[trigger] text_replaced(identity@, cover(binding), old.header->0, s)
                            && text::byte_length(s) > MAX_HEADER,
                }
            },
        },
{
    let carriers = match read(body, headers) {
        Ok(carriers) => carriers,
        Err(e) => return Err(e),
    };
    if let Err(e) = carriers.sources(headers) {
        return Err(e);
    }
    carriers.rewrite(headers, identity, binding)
}

/// A turn has one name for the server wherever a client names it, so that links between turns
/// hold.
pub proof fn law_turn_links_hold(
    p: Persona,
    child: Persona,
    c: Option<Cover>,
    value: Seq<char>,
    key: Seq<char>,
    other: Seq<char>,
    a: Tree,
    b: Tree,
)
    requires
        p.installation_id == child.installation_id,
        is_turn(key),
        is_turn(other),
        field_replaced(p, c, key, Tree::Text(value), a),
        field_replaced(child, c, other, Tree::Text(value), b),
    ensures
        a == b,
{
    lemma_own_names(p);
    lemma_own_names(child);
}

/// The shape of metadata is kept: every field stays, and one that is null stays null unless it
/// is the identity's own.
pub proof fn law_metadata_shape_is_kept(
    p: Persona,
    c: Option<Cover>,
    m: Map<Seq<char>, Tree>,
    n: Map<Seq<char>, Tree>,
    key: Seq<char>,
)
    requires
        fits(c, m),
        is_replaced(p, c, m, n),
        m.contains_key(key),
        m[key] is Null,
        own_value(p, key) is None,
    ensures
        n.contains_key(key),
        n[key] is Null,
{
    assert(field_fits(c, key, m[key]));
    assert(field_replaced(p, c, key, m[key], n[key]));
}

proof fn lemma_replaced_names()
    ensures
        "installation_id"@.len() == 15,
        "x-codex-installation-id"@.len() == 23,
        "session_id"@.len() == 10 && "session_id"@[0] == 's',
        "thread_id"@.len() == 9 && "thread_id"@[0] == 't',
        "turn_id"@.len() == 7,
        "window_id"@.len() == 9 && "window_id"@[0] == 'w',
        "x-codex-window-id"@.len() == 17 && "x-codex-window-id"@[0] == 'x',
        "context_window_id"@.len() == 17 && "context_window_id"@[0] == 'c',
        "root_turn_id"@.len() == 12,
        "parent_turn_id"@.len() == 14,
        "parent_thread_id"@.len() == 16,
        "workspaces"@.len() == 10 && "workspaces"@[0] == 'w',
        "x-codex-turn-metadata"@.len() == 21,
        "x-codex-parent-thread-id"@.len() == 24,
{
    reveal_strlit("installation_id");
    reveal_strlit("x-codex-installation-id");
    reveal_strlit("session_id");
    reveal_strlit("thread_id");
    reveal_strlit("turn_id");
    reveal_strlit("window_id");
    reveal_strlit("x-codex-window-id");
    reveal_strlit("context_window_id");
    reveal_strlit("root_turn_id");
    reveal_strlit("parent_turn_id");
    reveal_strlit("parent_thread_id");
    reveal_strlit("workspaces");
    reveal_strlit("x-codex-turn-metadata");
    reveal_strlit("x-codex-parent-thread-id");
}

/// In metadata that was replaced the installation, the session, the thread and the window are the
/// identity's; turns and context windows go by other names; a parent thread goes by the one it is
/// bound to, and workspaces by other paths, where there is a binding. All else stays as it is.
pub proof fn law_which_fields_are_replaced(
    p: Persona,
    c: Option<Cover>,
    m: Map<Seq<char>, Tree>,
    n: Map<Seq<char>, Tree>,
    key: Seq<char>,
)
    requires
        is_replaced(p, c, m, n),
        m.contains_key(key),
    ensures
        n.dom() == m.dom(),
        ({
            let turn = key == "turn_id"@ || key == "root_turn_id"@ || key == "parent_turn_id"@
                || key == "context_window_id"@;
            let own = key == "installation_id"@ || key == "x-codex-installation-id"@ || key
                == "session_id"@ || key == "thread_id"@ || key == "window_id"@ || key
                == "x-codex-window-id"@;
            &&& key == "installation_id"@ || key == "x-codex-installation-id"@ ==> n[key]
                == Tree::Text(p.installation_id)
            &&& key == "session_id"@ ==> n[key] == Tree::Text(p.session_id)
            &&& key == "thread_id"@ ==> n[key] == Tree::Text(p.thread_id)
            &&& key == "window_id"@ || key == "x-codex-window-id"@ ==> n[key] == Tree::Text(
                p.window_id,
            )
            &&& turn && m[key] is Text ==> n[key] == Tree::Text(alias(p, m[key]->Text_0))
            &&& turn && !(m[key] is Text) ==> n[key] == m[key]
            &&& key == "parent_thread_id"@ && c is Some && m[key] is Text ==> n[key] == Tree::Text(
                c->0.parents[m[key]->Text_0],
            )
            &&& key == "workspaces"@ && c is Some ==> m[key] is Object && n[key] is Object
                && are_covered(p, c->0.workspace, m[key]->Object_0, n[key]->Object_0)
            &&& c is None && !turn && !own ==> n[key] == m[key]
            &&& !turn && !own && key != "parent_thread_id"@ && key != "workspaces"@ ==> n[key]
                == m[key]
        }),
{
    lemma_replaced_names();
    assert(field_replaced(p, c, key, m[key], n[key]));
}

/// Metadata can be replaced where turns and context windows are texts or null and, with a binding,
/// where every parent is bound and every workspace is an object whose addresses are one too.
pub proof fn law_which_metadata_fits(c: Option<Cover>, m: Map<Seq<char>, Tree>, key: Seq<char>)
    requires
        fits(c, m),
        m.contains_key(key),
    ensures
        key == "turn_id"@ || key == "root_turn_id"@ || key == "parent_turn_id"@ || key
            == "context_window_id"@ ==> m[key] is Null || m[key] is Text,
        key == "parent_thread_id"@ && c is Some ==> m[key] is Null || (m[key] is Text
            && c->0.parents.contains_key(m[key]->Text_0)),
        key == "workspaces"@ && c is Some ==> m[key] is Object,
{
    lemma_replaced_names();
    assert(field_fits(c, key, m[key]));
}

/// Any other metadata can be replaced: without one of these fields every object fits.
pub proof fn law_other_metadata_fits(c: Option<Cover>, m: Map<Seq<char>, Tree>)
    requires
        forall|key: Seq<char>| #[trigger]
            m.contains_key(key) && (key == "turn_id"@ || key == "root_turn_id"@ || key
                == "parent_turn_id"@ || key == "context_window_id"@) ==> m[key] is Null || m[key]
                is Text,
        c is Some && m.contains_key("parent_thread_id"@) ==> m["parent_thread_id"@] is Null || (
        m["parent_thread_id"@] is Text && c->0.parents.contains_key(
            m["parent_thread_id"@]->Text_0,
        )),
        c is Some && m.contains_key("workspaces"@) ==> m["workspaces"@] is Object && forall|
            k: Seq<char>,
        | #[trigger]
            m["workspaces"@]->Object_0.contains_key(k) ==> m["workspaces"@]->Object_0[k] is Object
                && (m["workspaces"@]->Object_0[k].at("associated_remote_urls"@) is Null
                || m["workspaces"@]->Object_0[k].at("associated_remote_urls"@) is Object),
    ensures
        fits(c, m),
{
    lemma_replaced_names();
    assert forall|k: Seq<char>| #[trigger] m.contains_key(k) implies field_fits(c, k, m[k]) by {}
}

/// A name that takes the place of another has the form of an identifier: 32 characters of the
/// digest in five groups, with hyphens between them.
pub proof fn law_form_of_other_names(hex: Seq<char>)
    requires
        hex.len() >= 32,
    ensures
        ({
            let s = hyphenated(hex);
            &&& s.len() == 36
            &&& s[8] == '-' && s[13] == '-' && s[18] == '-' && s[23] == '-'
            &&& s.subrange(0, 8) == hex.subrange(0, 8)
            &&& s.subrange(9, 13) == hex.subrange(8, 12)
            &&& s.subrange(14, 18) == hex.subrange(12, 16)
            &&& s.subrange(19, 23) == hex.subrange(16, 20)
            &&& s.subrange(24, 36) == hex.subrange(20, 32)
        }),
{
    reveal_strlit("-");
    let s = hyphenated(hex);
    assert("-"@.len() == 1 && "-"@[0] == '-');
    assert(s.subrange(0, 8) =~= hex.subrange(0, 8));
    assert(s.subrange(9, 13) =~= hex.subrange(8, 12));
    assert(s.subrange(14, 18) =~= hex.subrange(12, 16));
    assert(s.subrange(19, 23) =~= hex.subrange(16, 20));
    assert(s.subrange(24, 36) =~= hex.subrange(20, 32));
}

/// The names that take the place of others depend on the installation and the name alone.
pub proof fn law_other_names_are_stable(p: Persona, q: Persona, w: Workspace, value: Seq<char>)
    requires
        p.installation_id == q.installation_id,
    ensures
        alias(p, value) == alias(q, value),
        alias(p, value) == hyphenated(digest::pair_digest(p.installation_id, value)),
        covered_path(p, w, value) == w.path + "/worktrees/"@ + digest::pair_digest(
            p.installation_id,
            value,
        ).take(12),
{
}

/// What a client tells of a workspace is kept in its form: the addresses become the workspace's,
/// the commit its commit, and whether there are changes what it says. What is null stays null,
/// and all else stays as it is.
pub proof fn law_what_is_told_of_a_workspace(
    w: Workspace,
    m: Map<Seq<char>, Tree>,
    key: Seq<char>,
    remote: Seq<char>,
)
    requires
        m.contains_key(key),
    ensures
        ({
            let n = covered_workspace(w, m);
            &&& n.dom() == m.dom()
            &&& m[key] is Null ==> n[key] is Null
            &&& !(m[key] is Null) && key == "latest_git_commit_hash"@ ==> n[key] == Tree::Text(
                w.commit,
            )
            &&& !(m[key] is Null) && key == "has_changes"@ ==> n[key] == Tree::Bool(w.has_changes)
            &&& key == "associated_remote_urls"@ && m[key] is Object ==> (
            n[key] matches Tree::Object(urls) && urls.dom() == m[key]->Object_0.dom() && (
            m[key]->Object_0.contains_key(remote) ==> urls[remote] == (
            if m[key]->Object_0[remote] is Null {
                Tree::Null
            } else {
                Tree::Text(w.remote_url)
            })))
            &&& key != "associated_remote_urls"@ && key != "latest_git_commit_hash"@ && key
                != "has_changes"@ ==> n[key] == m[key]
        }),
{
    reveal_strlit("associated_remote_urls");
    reveal_strlit("latest_git_commit_hash");
    reveal_strlit("has_changes");
    assert("associated_remote_urls"@.len() == 22 && "latest_git_commit_hash"@.len() == 22
        && "has_changes"@.len() == 11);
    assert("associated_remote_urls"@[0] == 'a' && "latest_git_commit_hash"@[0] == 'l');
    assert(covered_workspace(w, m).dom() =~= m.dom());
    if m[key] is Object {
        assert(covered_urls(m[key]->Object_0, w.remote_url).dom() =~= m[key]->Object_0.dom());
    }
}

/// A text spells out an object.
pub open spec fn spells_out(s: Seq<char>, t: Tree) -> bool {
    t is Object && json::json_document(encode_utf8(s)) == Some(t)
}

/// Metadata is carried by the client metadata of a body, by the turn metadata in it and by the
/// header of that name. The body has to be a document, its client metadata an object, and turn
/// metadata the text of one.
pub proof fn law_what_carries_metadata(body: Seq<u8>, headers: Map<Seq<char>, String>, t: Tree)
    requires
        json::json_document(body) == Some(t),
    ensures
        ({
            let r = carried(body, headers);
            let has_client = t matches Tree::Object(m) && m.contains_key("client_metadata"@);
            let client = t.at("client_metadata"@);
            let has_nested = client matches Tree::Object(m) && m.contains_key(
                "x-codex-turn-metadata"@,
            );
            let nested = client.at("x-codex-turn-metadata"@);
            let has_header = headers.contains_key("x-codex-turn-metadata"@);
            let header = headers["x-codex-turn-metadata"@]@;
            &&& has_client && !(client is Object) ==> r == Err::<Carried, MetadataError>(
                MetadataError::ClientMetadata,
            )
            &&& r matches Ok(c) ==> {
                &&& c.body == t
                &&& c.nested is Some <==> has_nested
                &&& c.nested matches Some(n) ==> nested is Text && spells_out(nested->Text_0, n)
                &&& c.header is Some <==> has_header
                &&& c.header matches Some(n) ==> spells_out(header, n)
            }
            &&& has_nested && !(nested is Text) ==> r == Err::<Carried, MetadataError>(
                MetadataError::TurnMetadata,
            )
            &&& (!has_client || client is Object) && !has_nested && !has_header ==> r is Ok
            &&& (!has_client || client is Object) && (has_nested ==> nested is Text && exists|
                n: Tree,
            | #[trigger]
                spells_out(nested->Text_0, n)) && (has_header ==> exists|n: Tree| #[trigger]
                spells_out(header, n)) ==> r is Ok
        }),
{
    let client = t.at("client_metadata"@);
    let nested = client.at("x-codex-turn-metadata"@);
    let header = headers["x-codex-turn-metadata"@]@;
    if nested is Text {
        if let Some(n) = object_in(nested->Text_0) {
            assert(spells_out(nested->Text_0, n));
        }
    }
    if let Some(n) = object_in(header) {
        assert(spells_out(header, n));
    }
}

/// A body that is no document carries nothing and is refused.
pub proof fn law_bodies_have_to_be_documents(body: Seq<u8>, headers: Map<Seq<char>, String>)
    requires
        json::json_document(body) is None,
    ensures
        carried(body, headers) == Err::<Carried, MetadataError>(MetadataError::Body),
{
}

/// What a request says for a field is what its client metadata, the turn metadata in it and the
/// one in a header say where each is a text; all of them, and in this order.
pub proof fn law_what_a_request_names(c: Carried, headers: Map<Seq<char>, String>, key: Seq<char>, s: Seq<char>)
    ensures
        named(c, key).contains(s) <==> {
            ||| c.body.at("client_metadata"@).at(key) == Tree::Text(s)
            ||| c.nested is Some && c.nested->0.at(key) == Tree::Text(s)
            ||| c.header is Some && c.header->0.at(key) == Tree::Text(s)
        },
        parents_named(c, headers).contains(s) <==> {
            ||| named(c, "parent_thread_id"@).contains(s)
            ||| headers.contains_key("x-codex-parent-thread-id"@)
                && headers["x-codex-parent-thread-id"@]@ == s
        },
{
    let a = listed(c.body.at("client_metadata"@).text_at(key));
    let b = named_in(c.nested, key);
    let d = named_in(c.header, key);
    lemma_two(a, b, s);
    lemma_two(a + b, d, s);
    lemma_listed(c.body.at("client_metadata"@).text_at(key), s);
    if c.nested is Some {
        lemma_listed(c.nested->0.text_at(key), s);
    }
    if c.header is Some {
        lemma_listed(c.header->0.text_at(key), s);
    }
    let h = if headers.contains_key(parent_name()) {
        seq![headers[parent_name()]@]
    } else {
        Seq::empty()
    };
    lemma_two(named(c, "parent_thread_id"@), h, s);
    if headers.contains_key(parent_name()) {
        lemma_listed(Some(headers[parent_name()]@), s);
    }
}

proof fn lemma_listed(o: Option<Seq<char>>, s: Seq<char>)
    ensures
        listed(o).contains(s) <==> o == Some(s),
{
    if o is Some {
        assert(listed(o)[0] == o->0);
    }
}

proof fn lemma_two(a: Seq<Seq<char>>, b: Seq<Seq<char>>, s: Seq<char>)
    ensures
        (a + b).contains(s) <==> a.contains(s) || b.contains(s),
{
    let all = a + b;
    if a.contains(s) {
        let i = choose|i: int| 0 <= i < a.len() && a[i] == s;
        assert(all[i] == s);
    }
    if b.contains(s) {
        let i = choose|i: int| 0 <= i < b.len() && b[i] == s;
        assert(all[a.len() + i] == s);
    }
    if all.contains(s) {
        let i = choose|i: int| 0 <= i < all.len() && all[i] == s;
        if i < a.len() {
            assert(a[i] == s);
        } else {
            assert(b[i - a.len()] == s);
        }
    }
}

/// What a request names agrees where there are no two different names.
pub proof fn law_when_names_agree(list: Seq<Seq<char>>)
    ensures
        agree(list) <==> !exists|a: Seq<char>, b: Seq<char>|
            a != b && #[trigger] list.contains(a) && #[trigger] list.contains(b),
{
    if exists|a: Seq<char>, b: Seq<char>|
        a != b && #[trigger] list.contains(a) && #[trigger] list.contains(b) {
        let (a, b) = choose|a: Seq<char>, b: Seq<char>|
            a != b && #[trigger] list.contains(a) && #[trigger] list.contains(b);
        let i = choose|i: int| 0 <= i < list.len() && list[i] == a;
        let j = choose|j: int| 0 <= j < list.len() && list[j] == b;
        assert(list[i] != list[j]);
    } else {
        assert forall|i: int, j: int| 0 <= i < list.len() && 0 <= j < list.len() implies
            #[trigger] list[i] == #[trigger] list[j] by {
            assert(list.contains(list[i]) && list.contains(list[j]));
        }
    }
}

/// A body without a word on whether its response is stored says that it is not; nothing else is
/// added, and outside the client metadata all stays as it is.
pub proof fn law_rest_of_a_body_stays(
    p: Persona,
    c: Option<Cover>,
    old: Carried,
    next: Tree,
    key: Seq<char>,
)
    requires
        body_replaced(p, c, old, next),
        old.body is Object,
    ensures
        next is Object,
        old.body.field("store"@) is None ==> next.at("store"@) == Tree::Bool(false),
        old.body.field("store"@) is Some && "store"@ != "client_metadata"@ ==> next.field("store"@)
            == old.body.field("store"@),
        key != "client_metadata"@ && key != "store"@ ==> next.field(key) == old.body.field(key),
        old.body.field("client_metadata"@) is None && "store"@ != "client_metadata"@ ==> next.field(
            "client_metadata"@,
        ) is None,
{
    reveal_strlit("store");
    reveal_strlit("client_metadata");
    assert("store"@.len() == 5 && "client_metadata"@.len() == 15);
}

/// The client metadata of a body has its fields replaced, and the turn metadata that it spells out
/// has too.
pub proof fn law_client_metadata_is_replaced(
    p: Persona,
    c: Option<Cover>,
    old: Map<Seq<char>, Tree>,
    nested: Option<Tree>,
    next: Map<Seq<char>, Tree>,
    key: Seq<char>,
)
    requires
        client_replaced(p, c, old, nested, next),
    ensures
        nested is None ==> is_replaced(p, c, old, next),
        nested matches Some(t) ==> {
            &&& next.contains_key("x-codex-turn-metadata"@)
            &&& next["x-codex-turn-metadata"@] matches Tree::Text(s) && t is Object && exists|
                n: Map<Seq<char>, Tree>,
            | #[trigger]
                is_replaced(p, c, t->Object_0, n) && s == json::json_string(Tree::Object(n))
            &&& old.contains_key(key) && key != "x-codex-turn-metadata"@ ==> next.contains_key(key)
                && field_replaced(p, c, key, old[key], next[key])
        },
{
    if let Some(t) = nested {
        let (n, s) = choose|n: Map<Seq<char>, Tree>, s: Seq<char>| #[trigger]
            is_replaced(p, c, old, n) && #[trigger] text_replaced(p, c, t, s) && next == n.insert(
                turn_name(),
                Tree::Text(s),
            );
        if old.contains_key(key) && key != turn_name() {
            assert(n.dom().contains(key));
        }
    }
}

/// A header of the identity has its value; one that names a turn has the other name of it, and one
/// that names the parent the thread that it is bound to. Turn metadata has its fields replaced and
/// 8 kibibytes at most. All other headers stay as they are.
pub proof fn law_which_headers_are_replaced(
    p: Persona,
    c: Option<Cover>,
    metadata: Option<Tree>,
    old: Map<Seq<char>, String>,
    next: Map<Seq<char>, String>,
    name: Seq<char>,
)
    requires
        headers_replaced(p, c, metadata, old, next),
        old.contains_key(name),
    ensures
        ({
            let turn = name == "turn_id"@ || name == "root_turn_id"@ || name == "parent_turn_id"@
                || name == "context_window_id"@;
            let own = name == "installation_id"@ || name == "x-codex-installation-id"@ || name
                == "session_id"@ || name == "thread_id"@ || name == "window_id"@ || name
                == "x-codex-window-id"@;
            let value = next[name]@;
            &&& next.dom() == old.dom()
            &&& name == "installation_id"@ || name == "x-codex-installation-id"@ ==> value
                == p.installation_id
            &&& name == "session_id"@ ==> value == p.session_id
            &&& name == "thread_id"@ ==> value == p.thread_id
            &&& name == "window_id"@ || name == "x-codex-window-id"@ ==> value == p.window_id
            &&& turn ==> value == alias(p, old[name]@)
            &&& name == "x-codex-parent-thread-id"@ && c is Some ==> value
                == c->0.parents[old[name]@]
            &&& name == "x-codex-turn-metadata"@ ==> metadata is Some && text_replaced(
                p,
                c,
                metadata->0,
                value,
            ) && encode_utf8(value).len() <= 8192
            &&& !turn && !own && name != "x-codex-turn-metadata"@ && (c is None || name
                != "x-codex-parent-thread-id"@) ==> value == old[name]@
        }),
{
    lemma_replaced_names();
    assert(header_replaced(p, c, metadata, name, old[name]@, next[name]@));
}

/// A request can be replaced where its client metadata, its turn metadata and the parent that a
/// header names can.
pub proof fn law_which_requests_fit(
    c: Option<Cover>,
    old: Carried,
    headers: Map<Seq<char>, String>,
)
    ensures
        request_fits(c, old, headers) <==> {
            &&& old.body matches Tree::Object(m) ==> (m.contains_key("client_metadata"@) ==> fits(
                c,
                m["client_metadata"@]->Object_0,
            ))
            &&& old.nested matches Some(t) ==> fits(c, t->Object_0)
            &&& old.header matches Some(t) ==> fits(c, t->Object_0)
            &&& c is Some && headers.contains_key("x-codex-parent-thread-id"@)
                ==> c->0.parents.contains_key(headers["x-codex-parent-thread-id"@]@)
        },
{
}

/// Every workspace of a client is told of under another path, and each that is told of is one of
/// the client's, told of as the workspace that stands for it.
pub proof fn law_workspaces_are_covered(
    p: Persona,
    w: Workspace,
    m: Map<Seq<char>, Tree>,
    n: Map<Seq<char>, Tree>,
    key: Seq<char>,
)
    requires
        are_covered(p, w, m, n),
    ensures
        m.contains_key(key) ==> n.contains_key(
            w.path + "/worktrees/"@ + digest::pair_digest(p.installation_id, key).take(12),
        ),
        n.contains_key(key) ==> exists|old: Seq<char>| #[trigger]
            m.contains_key(old) && key == w.path + "/worktrees/"@ + digest::pair_digest(
                p.installation_id,
                old,
            ).take(12) && m[old] is Object && n[key] == Tree::Object(
                covered_workspace(w, m[old]->Object_0),
            ),
{
    if n.contains_key(key) {
        let old = choose|old: Seq<char>|
            {
                &&& #[trigger] m.contains_key(old)
                &&& key == covered_path(p, w, old)
                &&& m[old] is Object
                &&& n[key] == Tree::Object(covered_workspace(w, m[old]->Object_0))
            };
        assert(m.contains_key(old));
    }
}

} // verus!
