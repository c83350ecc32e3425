//! OpenAI-compatible access to the complete model catalog.
use crate::json;
use crate::json::parse_text;
use crate::json::push_json;
use crate::json::unlisted;
use crate::json::text_json;
use crate::json::Json;
use crate::json::Quantity;
use crate::json::Tree;
use crate::text;
use crate::text::after_prefix;
use crate::text::contains_text;
use crate::text::cut_at;
use crate::text::list_contains;
use crate::text::same;
use vstd::prelude::*;

verus! {

broadcast use {vstd::seq_lib::group_seq_properties, vstd::map::group_map_axioms};

/// How many pages a list comes in at most.
pub const MAX_PAGES: usize = 100;

/// The path and the query of a URL.
pub open spec fn split_url(url: Seq<char>) -> (Seq<char>, Seq<char>) {
    match text::cut(url, '?') {
        Some((path, query)) => (path, query),
        None => (url, Seq::empty()),
    }
}

/// Whether a request asks for the catalog in the form that Codex clients understand.
pub open spec fn asks_for_catalog(url: Seq<char>) -> bool {
    split_url(url).0 == "/v1/models"@ && text::occurs(split_url(url).1, "client_version="@)
}

/// The path of a URL, and whether it asks for the catalog in the form that Codex clients
/// understand.
pub fn route(url: &str) -> (r: (String, bool))
    ensures
        r.0@ == split_url(url@).0,
        r.1 == asks_for_catalog(url@),
{
    let (path, query) = match cut_at(url, '?') {
        Some((path, query)) => (path, query),
        None => (url.to_owned(), String::new()),
    };
    let full = same(&path, "/v1/models") && contains_text(&query, "client_version=");
    (path, full)
}

/// An error as it is answered.
pub open spec fn error_tree(
    message: Seq<char>,
    kind: Seq<char>,
    param: Option<Seq<char>>,
    code: Seq<char>,
) -> Tree {
    Tree::Object(
        Map::empty().insert(
            "error"@,
            Tree::Object(
                Map::empty().insert("message"@, Tree::Text(message)).insert(
                    "type"@,
                    Tree::Text(kind),
                ).insert("param"@, json::optional_text(param)).insert("code"@, Tree::Text(code)),
            ),
        ),
    )
}

pub fn error_json(message: &str, kind: &str, param: Option<String>, code: &str) -> (r: Json)
    ensures
        r@ == error_tree(message@, kind@, text::text_option(param), code@),
{
    let mut error = Json::object();
    error.set("message".to_owned(), Json::Text(message.to_owned()));
    error.set("type".to_owned(), Json::Text(kind.to_owned()));
    error.set("param".to_owned(), text_json(param));
    error.set("code".to_owned(), Json::Text(code.to_owned()));
    let mut r = Json::object();
    r.set("error".to_owned(), error);
    r
}

/// The answer where the thread manager does not give its catalog.
pub fn catalog_unavailable(cache: bool) -> (r: (u16, Json))
    ensures
        r.0 == 502,
        r.1@ == error_tree(
            if cache {
                "Unable to load the model catalog cache"@
            } else {
                "Unable to load the app-server model catalog"@
            },
            "server_error"@,
            None,
            "model_catalog_unavailable"@,
        ),
{
    let message = if cache {
        "Unable to load the model catalog cache"
    } else {
        "Unable to load the app-server model catalog"
    };
    (502, error_json(message, "server_error", None, "model_catalog_unavailable"))
}

/// Why a cached catalog cannot be used.
#[derive(Clone, Copy, Debug, PartialEq, Eq, Structural)]
pub enum CatalogError {
    Malformed,
    MissingModels,
    ModelsShape,
    /// A page is not as it should be.
    Page,
    /// A page was announced twice, or there are too many.
    Pagination,
}

impl CatalogError {
    pub open spec fn words(self) -> Seq<char> {
        match self {
            CatalogError::Malformed => "invalid models cache JSON"@,
            CatalogError::MissingModels => "models cache is missing the models key"@,
            CatalogError::ModelsShape => "models cache models key is not an array"@,
            CatalogError::Page => "invalid app-server model/list response"@,
            CatalogError::Pagination => "model catalog pagination repeated a cursor or exceeded 100 pages"@,
        }
    }

    pub fn message(self) -> (r: &'static str)
        ensures
            r@ == self.words(),
    {
        match self {
            CatalogError::Malformed => "invalid models cache JSON",
            CatalogError::MissingModels => "models cache is missing the models key",
            CatalogError::ModelsShape => "models cache models key is not an array",
            CatalogError::Page => "invalid app-server model/list response",
            CatalogError::Pagination => "model catalog pagination repeated a cursor or exceeded 100 pages",
        }
    }
}

/// The catalog that a cache holds, with the tag of its version.
pub open spec fn cached_catalog(cache: Tree) -> Result<(Tree, Option<Seq<char>>), CatalogError> {
    match cache.field("models"@) {
        None => Err(CatalogError::MissingModels),
        Some(models) => if models is Array {
            Ok((Tree::Object(Map::empty().insert("models"@, models)), cache.text_at("etag"@)))
        } else {
            Err(CatalogError::ModelsShape)
        },
    }
}

pub open spec fn catalog_in(text: Seq<char>) -> Result<(Tree, Option<Seq<char>>), CatalogError> {
    match json::text_document(text) {
        None => Err(CatalogError::Malformed),
        Some(cache) => cached_catalog(cache),
    }
}

pub open spec fn catalog_view(r: Result<(Json, Option<String>), CatalogError>) -> Result<
    (Tree, Option<Seq<char>>),
    CatalogError,
> {
    match r {
        Ok((j, tag)) => Ok((j@, text::text_option(tag))),
        Err(e) => Err(e),
    }
}

/// The catalog that a cache holds, with the tag of its version.
pub fn catalog_of(cache: &Json) -> (r: Result<(Json, Option<String>), CatalogError>)
    ensures
        catalog_view(r) == cached_catalog(cache@),
{
    let models = match cache.get("models") {
        None => return Err(CatalogError::MissingModels),
        Some(models) => models,
    };
    if models.as_items().is_none() {
        return Err(CatalogError::ModelsShape);
    }
    let tag = match cache.text_at("etag") {
        Some(tag) => Some(tag.clone()),
        None => None,
    };
    let mut body = Json::object();
    body.set("models".to_owned(), models.copy());
    Ok((body, tag))
}

/// The catalog that a cache's text holds, with the tag of its version.
pub fn read_catalog(text: &str) -> (r: Result<(Json, Option<String>), CatalogError>)
    ensures
        catalog_view(r) == catalog_in(text@),
{
    match parse_text(text) {
        None => Err(CatalogError::Malformed),
        Some(cache) => catalog_of(&cache),
    }
}

/// A model as it is listed. The catalog tells neither when it was made nor whose it is.
pub open spec fn model_tree(id: Seq<char>) -> Tree {
    Tree::Object(
        Map::empty().insert("id"@, Tree::Text(id)).insert("object"@, Tree::Text("model"@)).insert(
            "created"@,
            Tree::Number(Quantity::Unsigned(0)),
        ).insert("owned_by"@, Tree::Text("codex"@)).insert("shutdown_date"@, Tree::Null),
    )
}

fn model_json(id: &str) -> (r: Json)
    ensures
        r@ == model_tree(id@),
{
    let mut r = Json::object();
    r.set("id".to_owned(), Json::Text(id.to_owned()));
    r.set("object".to_owned(), Json::Text("model".to_owned()));
    r.set("created".to_owned(), Json::unsigned(0));
    r.set("owned_by".to_owned(), Json::Text("codex".to_owned()));
    r.set("shutdown_date".to_owned(), Json::Null);
    r
}

/// A catalog that comes in pages.
#[derive(Debug)]
pub struct Catalog {
    pub models: Vec<Json>,
    /// The pages that were announced.
    pub seen: Vec<String>,
}

/// The model of a `Catalog`.
pub struct Listing {
    pub models: Seq<Tree>,
    pub seen: Seq<Seq<char>>,
}

impl View for Catalog {
    type V = Listing;

    open spec fn view(&self) -> Listing {
        Listing { models: json::trees_of(self.models@), seen: text::texts(self.seen@) }
    }
}

/// The model that an item of a page names.
pub open spec fn model_named(item: Tree) -> Option<Seq<char>> {
    json::record_of(item, seq!["model"@]).text_at("model"@)
}

/// Whether every item of a page names a model.
pub open spec fn all_named(items: Seq<Tree>) -> bool {
    forall|i: int| 0 <= i < items.len() ==> model_named(#[trigger] items[i]) is Some
}

pub open spec fn page_models(items: Seq<Tree>) -> Seq<Tree> {
    items.map_values(|t: Tree| model_tree(model_named(t)->0))
}

/// A page by the names of its parts.
pub open spec fn page_record(page: Tree) -> Tree {
    json::record_of(page, seq!["data"@, "nextCursor"@])
}

fn named_model(item: &Json) -> (r: Option<String>)
    ensures
        text::text_option(r) == model_named(item@),
{
    let names = ["model"];
    assert(json::str_views(names@) =~= seq!["model"@]);
    let listed = unlisted(item, &names);
    let item = match &listed {
        Some(item) => item,
        None => item,
    };
    match item.text_at("model") {
        Some(model) => Some(model.clone()),
        None => None,
    }
}

/// Whether a page is as it should be: a list of models and the name of the next page, if any.
pub open spec fn is_page(page: Tree) -> bool {
    &&& page.at("data"@).items() matches Some(items) && all_named(items)
    &&& page.at("nextCursor"@) is Null || page.at("nextCursor"@) is Text
}

/// The catalog after a page, and the name of the next one.
pub open spec fn paged(c: Listing, page: Tree) -> (Listing, Result<
    Option<Seq<char>>,
    CatalogError,
>) {
    turned(c, page_record(page))
}

/// The catalog after a page that is given by the names of its parts.
pub open spec fn turned(c: Listing, page: Tree) -> (Listing, Result<
    Option<Seq<char>>,
    CatalogError,
>) {
    if !is_page(page) {
        (c, Err(CatalogError::Page))
    } else {
        let models = c.models + page_models(page.at("data"@).items()->0);
        match page.text_at("nextCursor"@) {
            None => (Listing { models, ..c }, Ok(None)),
            Some(next) => if c.seen.contains(next) {
                (Listing { models, ..c }, Err(CatalogError::Pagination))
            } else if c.seen.len() + 1 >= MAX_PAGES {
                (Listing { models, seen: c.seen.push(next) }, Err(CatalogError::Pagination))
            } else {
                (Listing { models, seen: c.seen.push(next) }, Ok(Some(next)))
            },
        }
    }
}

pub open spec fn cursor_result(r: Result<Option<String>, CatalogError>) -> Result<
    Option<Seq<char>>,
    CatalogError,
> {
    match r {
        Ok(s) => Ok(text::text_option(s)),
        Err(e) => Err(e),
    }
}

/// The parameters with which a page is asked for.
pub open spec fn page_params(cursor: Option<Seq<char>>) -> Tree {
    Tree::Object(
        Map::empty().insert("cursor"@, json::optional_text(cursor)).insert(
            "limit"@,
            Tree::Number(Quantity::Unsigned(100)),
        ).insert("includeHidden"@, Tree::Bool(true)),
    )
}

/// The parameters with which a page is asked for.
pub fn page_request(cursor: Option<String>) -> (r: Json)
    ensures
        r@ == page_params(text::text_option(cursor)),
{
    let mut r = Json::object();
    r.set("cursor".to_owned(), text_json(cursor));
    r.set("limit".to_owned(), Json::unsigned(100));
    r.set("includeHidden".to_owned(), Json::Bool(true));
    r
}

impl Catalog {
    pub fn new() -> (r: Catalog)
        ensures
            r@ == (Listing { models: Seq::empty(), seen: Seq::empty() }),
    {
        let r = Catalog { models: Vec::new(), seen: Vec::new() };
        assert(r@.seen =~= Seq::empty());
        r
    }

    /// Adds a page; the name of the next one, if any.
    pub fn page(&mut self, page: &Json) -> (r: Result<Option<String>, CatalogError>)
        ensures
            (final(self)@, cursor_result(r)) == paged(old(self)@, page@),
    {
        let ghost start = self@;
        let names = ["data", "nextCursor"];
        assert(json::str_views(names@) =~= seq!["data"@, "nextCursor"@]);
        let listed = unlisted(page, &names);
        let record = match &listed {
            Some(record) => record,
            None => page,
        };
        let items = match record.items_at("data") {
            Some(items) => items,
            None => return Err(CatalogError::Page),
        };
        let ghost trees = json::trees_of(items@);
        let mut i: usize = 0;
        while i < items.len()
            invariant
                i <= items@.len(),
                *self == *old(self),
                start == old(self)@,
                record@ == page_record(page@),
                record@.at("data"@).items() == Some(trees),
                trees.len() == items@.len(),
                forall|k: int| 0 <= k < items@.len() ==> #[trigger] trees[k] == items@[k]@,
                forall|k: int| 0 <= k < i ==> model_named(#[trigger] trees[k]) is Some,
            decreases items@.len() - i,
        {
            assert(trees[i as int] == items@[i as int]@);
            if named_model(&items[i]).is_none() {
                return Err(CatalogError::Page);
            }
            i += 1;
        }
        assert(all_named(trees));
        let next: Option<String> = match record.get("nextCursor") {
            None => None,
            Some(Json::Null) => None,
            Some(Json::Text(s)) => Some(s.clone()),
            Some(_) => return Err(CatalogError::Page),
        };
        let ghost added = page_models(trees);
        let mut k: usize = 0;
        assert(added.take(0) =~= Seq::empty());
        assert(start.models + added.take(0) =~= start.models);
        while k < items.len()
            invariant
                k <= items@.len(),
                self.seen == old(self).seen,
                start == old(self)@,
                added == page_models(trees),
                trees.len() == items@.len(),
                all_named(trees),
                forall|j: int| 0 <= j < items@.len() ==> #[trigger] trees[j] == items@[j]@,
                json::trees_of(self.models@) == start.models + added.take(k as int),
            decreases items@.len() - k,
        {
            assert(trees[k as int] == items@[k as int]@);
            if let Some(id) = named_model(&items[k]) {
                push_json(&mut self.models, model_json(&id));
                assert(added.take(k + 1) =~= added.take(k as int).push(added[k as int]));
            }
            k += 1;
        }
        assert(added.take(added.len() as int) =~= added);
        match next {
            None => Ok(None),
            Some(next) => {
                if list_contains(&self.seen, &next) {
                    return Err(CatalogError::Pagination);
                }
                self.seen.push(next.clone());
                assert(text::texts(self.seen@) =~= start.seen.push(next@));
                if self.seen.len() >= MAX_PAGES {
                    return Err(CatalogError::Pagination);
                }
                Ok(Some(next))
            },
        }
    }
}

/// The position of a model by its identifier.
pub open spec fn model_position(models: Seq<Tree>, id: Seq<char>) -> Option<int>
    decreases models.len(),
{
    if models.len() == 0 {
        None
    } else {
        match model_position(models.drop_last(), id) {
            Some(i) => Some(i),
            None => if models.last().says("id"@, id) {
                Some(models.len() - 1)
            } else {
                None
            },
        }
    }
}

/// The identifier that a path names.
pub open spec fn path_id(path: Seq<char>) -> Seq<char> {
    let prefix = "/v1/models/"@;
    if prefix.is_prefix_of(path) {
        path.skip(prefix.len() as int)
    } else {
        Seq::empty()
    }
}

/// The answer to a request for models: all of them, or the one that the path names.
pub open spec fn answer(path: Seq<char>, models: Seq<Tree>) -> (u16, Tree) {
    if path == "/v1/models"@ {
        (
            200,
            Tree::Object(
                Map::empty().insert("object"@, Tree::Text("list"@)).insert(
                    "data"@,
                    Tree::Array(models),
                ),
            ),
        )
    } else {
        match model_position(models, path_id(path)) {
            Some(i) => (200, models[i]),
            None => (
                404,
                error_tree(
                    "Model not found in the app-server catalog"@,
                    "invalid_request_error"@,
                    Some("model"@),
                    "model_not_found"@,
                ),
            ),
        }
    }
}

fn find_model(models: &Vec<Json>, id: &str) -> (r: Option<usize>)
    ensures
        r is Some <==> model_position(json::trees_of(models@), id@) is Some,
        r matches Some(i) ==> i < models@.len() && model_position(json::trees_of(models@), id@)
            == Some(i as int),
{
    let ghost trees = json::trees_of(models@);
    let mut found: Option<usize> = None;
    let mut i: usize = 0;
    proof {
        json::lemma_trees_of(models@);
        assert(trees.take(0) =~= Seq::empty());
    }
    while i < models.len()
        invariant
            i <= models@.len(),
            trees == json::trees_of(models@),
            trees.len() == models@.len(),
            forall|k: int| 0 <= k < models@.len() ==> #[trigger] trees[k] == json::tree_of(
                models@[k],
            ),
            found is Some <==> model_position(trees.take(i as int), id@) is Some,
            found matches Some(k) ==> k < i && model_position(trees.take(i as int), id@) == Some(
                k as int,
            ),
        decreases models@.len() - i,
    {
        assert(trees.take(i + 1).drop_last() == trees.take(i as int));
        assert(trees[i as int] == models@[i as int]@);
        if found.is_none() && models[i].says("id", id) {
            found = Some(i);
        }
        i += 1;
    }
    assert(trees.take(trees.len() as int) == trees);
    found
}

/// The answer to a request for models: all of them, or the one that the path names.
pub fn model_response(path: &str, models: Vec<Json>) -> (r: (u16, Json))
    ensures
        (r.0, r.1@) == answer(path@, json::trees_of(models@)),
{
    if same(path, "/v1/models") {
        let mut r = Json::object();
        r.set("object".to_owned(), Json::Text("list".to_owned()));
        r.set("data".to_owned(), Json::Array(models));
        return (200, r);
    }
    let id = match after_prefix(path, "/v1/models/") {
        Some(id) => {
            assert(id@ =~= path@.skip("/v1/models/"@.len() as int));
            id
        },
        None => String::new(),
    };
    assert(id@ =~= path_id(path@));
    proof {
        json::lemma_trees_of(models@);
    }
    match find_model(&models, &id) {
        Some(i) => (200, models[i].copy()),
        None => (
            404,
            error_json(
                "Model not found in the app-server catalog",
                "invalid_request_error",
                Some("model".to_owned()),
                "model_not_found",
            ),
        ),
    }
}

/// No page is asked for twice, and no more than there may be: a list that never ends is given
/// up.
pub proof fn law_pages_are_bounded(c: Listing, page: Tree)
    requires
        c.seen.no_duplicates(),
        c.seen.len() < MAX_PAGES,
        paged(c, page).1 matches Ok(next) && next is Some,
    ensures
        paged(c, page).0.seen.no_duplicates(),
        paged(c, page).0.seen.len() < MAX_PAGES,
        paged(c, page).0.seen.len() == c.seen.len() + 1,
{
}

/// The path of a URL ends at its first question mark, and its query is what follows. The catalog is
/// asked for in the form of Codex clients where the path is that of all models and the query names
/// the client's version.
pub proof fn law_what_a_url_asks_for(url: Seq<char>, path: Seq<char>, query: Seq<char>)
    requires
        !path.contains('?'),
    ensures
        split_url(path) == (path, Seq::<char>::empty()),
        split_url(path + seq!['?'] + query) == (path, query),
        asks_for_catalog(url) <==> split_url(url).0 == "/v1/models"@ && text::occurs(
            split_url(url).1,
            "client_version="@,
        ),
{
    text::lemma_no_cut(path, '?');
    text::lemma_cut(path + seq!['?'] + query, '?', path, query);
}

/// A cache holds a catalog where its models are a list: these, and nothing else of the cache, with
/// the tag of its version where that is a text.
pub proof fn law_what_a_cache_holds(cache: Tree, s: Seq<char>)
    ensures
        ({
            let r = cached_catalog(cache);
            let known = cache matches Tree::Object(m) && m.contains_key("models"@);
            let models = cache.at("models"@);
            &&& !known <==> r == Err::<(Tree, Option<Seq<char>>), CatalogError>(
                CatalogError::MissingModels,
            )
            &&& known && !(models is Array) <==> r == Err::<
                (Tree, Option<Seq<char>>),
                CatalogError,
            >(CatalogError::ModelsShape)
            &&& known && models is Array ==> (r matches Ok((t, tag)) && t.at("models"@) == models
                && (forall|k: Seq<char>| #[trigger] t.field(k) is Some ==> k == "models"@) && tag
                == cache.at("etag"@).text())
        }),
        json::text_document(s) is None ==> catalog_in(s) == Err::<
            (Tree, Option<Seq<char>>),
            CatalogError,
        >(CatalogError::Malformed),
        json::text_document(s) == Some(cache) ==> catalog_in(s) == cached_catalog(cache),
{
}

proof fn lemma_model_names()
    ensures
        "id"@.len() == 2,
        "object"@.len() == 6,
        "created"@.len() == 7,
        "owned_by"@.len() == 8,
        "shutdown_date"@.len() == 13,
        "data"@.len() == 4,
        "message"@.len() == 7,
        "type"@.len() == 4 && "type"@[0] == 't',
        "param"@.len() == 5,
        "code"@.len() == 4 && "code"@[0] == 'c',
        "cursor"@.len() == 6,
        "limit"@.len() == 5,
        "includeHidden"@.len() == 13,
{
    reveal_strlit("id");
    reveal_strlit("object");
    reveal_strlit("created");
    reveal_strlit("owned_by");
    reveal_strlit("shutdown_date");
    reveal_strlit("data");
    reveal_strlit("message");
    reveal_strlit("type");
    reveal_strlit("param");
    reveal_strlit("code");
    reveal_strlit("cursor");
    reveal_strlit("limit");
    reveal_strlit("includeHidden");
}

/// A model is listed by its identifier, and an error is told with its words, its type, what it is
/// about and its code.
pub proof fn law_how_models_are_listed(
    id: Seq<char>,
    message: Seq<char>,
    kind: Seq<char>,
    param: Option<Seq<char>>,
    code: Seq<char>,
)
    ensures
        model_tree(id).at("id"@) == Tree::Text(id),
        model_tree(id).at("object"@) == Tree::Text("model"@),
        model_tree(id).at("created"@).number() == Some(0u64),
        model_tree(id).at("owned_by"@) == Tree::Text("codex"@),
        model_tree(id).field("shutdown_date"@) == Some(Tree::Null),
        ({
            let e = error_tree(message, kind, param, code).at("error"@);
            &&& e.at("message"@) == Tree::Text(message)
            &&& e.at("type"@) == Tree::Text(kind)
            &&& e.at("param"@).text() == param
            &&& e.at("code"@) == Tree::Text(code)
        }),
{
    lemma_model_names();
}

/// A page adds its models behind those that came before. The name of the next page is asked for
/// where it was not announced before and fewer than a hundred were; without one the catalog is
/// complete. A page that is not as it should be adds nothing.
pub proof fn law_how_pages_are_added(c: Listing, m: Map<Seq<char>, Tree>, i: int)
    ensures
        ({
            let page = Tree::Object(m);
            let (after, r) = paged(c, page);
            let next = page.at("nextCursor"@);
            let good = page.at("data"@) is Array && (next is Null || next is Text) && forall|k: int|
                0 <= k < page.at("data"@)->Array_0.len() ==> model_named(
                    #[trigger] page.at("data"@)->Array_0[k],
                ) is Some;
            let items = page.at("data"@)->Array_0;
            &&& !good <==> r == Err::<Option<Seq<char>>, CatalogError>(CatalogError::Page)
            &&& !good ==> after == c
            &&& good ==> {
                &&& after.models.len() == c.models.len() + items.len()
                &&& after.models.take(c.models.len() as int) == c.models
                &&& 0 <= i < items.len() ==> after.models[c.models.len() + i] == model_tree(
                    model_named(items[i])->0,
                )
                &&& next is Null ==> r == Ok::<Option<Seq<char>>, CatalogError>(None) && after.seen
                    == c.seen
                &&& next is Text && !c.seen.contains(next->Text_0) && c.seen.len() + 1 < 100 ==> r
                    == Ok::<Option<Seq<char>>, CatalogError>(Some(next->Text_0)) && after.seen
                    == c.seen.push(next->Text_0)
                &&& next is Text && (c.seen.contains(next->Text_0) || c.seen.len() + 1 >= 100) ==> r
                    == Err::<Option<Seq<char>>, CatalogError>(CatalogError::Pagination)
            }
        }),
{
    let page = Tree::Object(m);
    if page.at("data"@) is Array {
        let items = page.at("data"@)->Array_0;
        assert((c.models + page_models(items)).take(c.models.len() as int) =~= c.models);
    }
}

/// A model that is given as an object is named by its member of that name.
pub proof fn law_which_model_an_item_names(m: Map<Seq<char>, Tree>, cursor: Option<Seq<char>>)
    ensures
        model_named(Tree::Object(m)) == Tree::Object(m).at("model"@).text(),
        page_params(cursor).at("cursor"@).text() == cursor,
        page_params(cursor).at("limit"@).number() == Some(100u64),
        page_params(cursor).at("includeHidden"@) == Tree::Bool(true),
{
    lemma_model_names();
}

/// The path of all models is answered with all of them; the path of one with the first of that
/// identifier, and with 404 where there is none.
pub proof fn law_which_models_are_answered(models: Seq<Tree>, id: Seq<char>, i: int)
    ensures
        answer("/v1/models"@, models).0 == 200,
        answer("/v1/models"@, models).1.at("data"@) == Tree::Array(models),
        answer("/v1/models"@, models).1.at("object"@) == Tree::Text("list"@),
        0 <= i < models.len() && models[i].at("id"@) == Tree::Text(id) && (forall|k: int|
            0 <= k < i ==> (#[trigger] models[k]).at("id"@) != Tree::Text(id)) ==> answer(
            "/v1/models/"@ + id,
            models,
        ) == (200u16, models[i]),
        (forall|k: int| 0 <= k < models.len() ==> (#[trigger] models[k]).at("id"@) != Tree::Text(id))
            ==> answer("/v1/models/"@ + id, models).0 == 404,
{
    lemma_model_names();
    reveal_strlit("/v1/models");
    reveal_strlit("/v1/models/");
    assert("/v1/models"@.len() == 10 && "/v1/models/"@.len() == 11);
    let path = "/v1/models/"@ + id;
    assert("/v1/models/"@.is_prefix_of(path)) by {
        assert("/v1/models/"@ =~= path.subrange(0, 11));
    }
    assert(path.skip(11) =~= id);
    assert(path_id(path) == id);
    lemma_model_position(models, id, i);
}

proof fn lemma_model_position(models: Seq<Tree>, id: Seq<char>, i: int)
    ensures
        0 <= i < models.len() && models[i].at("id"@) == Tree::Text(id) && (forall|k: int|
            0 <= k < i ==> (#[trigger] models[k]).at("id"@) != Tree::Text(id)) ==> model_position(
            models,
            id,
        ) == Some(i),
        (forall|k: int| 0 <= k < models.len() ==> (#[trigger] models[k]).at("id"@) != Tree::Text(id))
            ==> model_position(models, id) is None,
    decreases models.len(),
{
    if models.len() > 0 {
        let front = models.drop_last();
        let end = models.len() - 1;
        lemma_model_position(front, id, i);
        assert(models[end] == models.last());
        assert(forall|k: int| 0 <= k < end ==> #[trigger] models[k] == front[k]);
        if 0 <= i < models.len() && models[i].at("id"@) == Tree::Text(id) && (forall|k: int|
            0 <= k < i ==> (#[trigger] models[k]).at("id"@) != Tree::Text(id)) {
            if i < end {
                assert(front[i] == models[i]);
                assert forall|k: int| 0 <= k < i implies (#[trigger] front[k]).at("id"@)
                    != Tree::Text(id) by {
                    assert(models[k].at("id"@) != Tree::Text(id));
                }
            } else {
                assert forall|k: int| 0 <= k < front.len() implies (#[trigger] front[k]).at("id"@)
                    != Tree::Text(id) by {
                    assert(models[k].at("id"@) != Tree::Text(id));
                }
            }
        }
        if forall|k: int|
            0 <= k < models.len() ==> (#[trigger] models[k]).at("id"@) != Tree::Text(id) {
            assert forall|k: int| 0 <= k < front.len() implies (#[trigger] front[k]).at("id"@)
                != Tree::Text(id) by {
                assert(models[k].at("id"@) != Tree::Text(id));
            }
            assert(models[end].at("id"@) != Tree::Text(id));
        }
    }
}

/// Pages and models may be written as lists of their values: a page lists its data and then the
/// name of the next one, and a model only what it is called.
pub proof fn law_lists_say_the_same(c: Listing, a: Tree, b: Tree)
    ensures
        paged(c, Tree::Array(seq![a, b])) == paged(
            c,
            Tree::Object(Map::empty().insert("data"@, a).insert("nextCursor"@, b)),
        ),
        model_named(Tree::Array(seq![a])) == a.text(),
{
    let two = seq![a, b];
    let one = seq![a];
    assert(two.drop_last() =~= one);
    assert(one.drop_last() =~= Seq::empty());
    assert(two.last() == b && one.last() == a);
    reveal_with_fuel(json::named_values, 3);
    assert(json::named_values(two, seq!["data"@, "nextCursor"@]) =~= Map::empty().insert(
        "data"@,
        a,
    ).insert("nextCursor"@, b));
    assert(json::named_values(one, seq!["model"@]) =~= Map::empty().insert("model"@, a));
}

} // verus!
