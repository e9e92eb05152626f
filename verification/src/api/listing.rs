//! The models that are on offer.
use crate::api::auth::opt_view;
use crate::api::request::{error_body, error_tree};
use crate::json;
use crate::json::{counted, members, tree, trees, Json, Tree};
use crate::text;
use vstd::prelude::*;

verus! {

/// A model of the catalog, and whether its weights are on disk.
#[derive(Debug, Clone, PartialEq, Eq)]
pub struct CatalogEntry {
    pub id: String,
    pub name: String,
    pub size_bytes: u64,
    pub digest: String,
    pub base: String,
    /// The number of parameters as it is shown, such as `7.0B`.
    pub parameter_size: String,
    pub quantization: String,
    pub domain: String,
    pub source_model: String,
    pub license: String,
    pub present: bool,
}

/// A model of the local store, and whether its weights are on disk.
#[derive(Debug, Clone, PartialEq, Eq)]
pub struct StoredModel {
    pub id: String,
    pub name: String,
    pub size_bytes: u64,
    pub digest: String,
    pub base: String,
    pub present: bool,
}

/// What is known of a loaded model that no catalog names.
pub open spec fn placeholder(name: Seq<char>) -> Tree {
    Tree::Object(
        seq![
            ("name"@, Tree::Text(name)),
            ("size"@, counted(0)),
            ("digest"@, Tree::Text(""@)),
            ("loaded"@, Tree::Bool(true)),
            (
                "details"@,
                Tree::Object(
                    seq![
                        ("format"@, Tree::Text("gguf"@)),
                        ("family"@, Tree::Text(""@)),
                        ("parameter_size"@, Tree::Text(""@)),
                        ("quantization_level"@, Tree::Text("Q4_K_M"@)),
                    ],
                ),
            ),
        ],
    )
}

/// What the catalog says of a model.
pub open spec fn catalog_details(m: CatalogEntry) -> Seq<(Seq<char>, Tree)> {
    seq![
        ("format"@, Tree::Text("gguf"@)),
        ("family"@, Tree::Text(m.base@)),
        ("parameter_size"@, Tree::Text(m.parameter_size@)),
        ("quantization_level"@, Tree::Text(m.quantization@)),
        ("domain"@, Tree::Text(m.domain@)),
        ("source_model"@, Tree::Text(m.source_model@)),
    ]
}

/// A model of the catalog that is loaded. It says so: nothing else in the list
/// tells which model is in the slot.
pub open spec fn loaded_entry(m: CatalogEntry) -> Tree {
    Tree::Object(
        seq![
            ("name"@, Tree::Text(m.id@)),
            ("size"@, counted(m.size_bytes as nat)),
            ("digest"@, Tree::Text(m.digest@)),
            ("loaded"@, Tree::Bool(true)),
            ("downloaded"@, Tree::Bool(true)),
            (
                "details"@,
                Tree::Object(catalog_details(m).push(("display_name"@, Tree::Text(m.name@)))),
            ),
        ],
    )
}

/// A model of the catalog that is not loaded. Its name is the id, which is what
/// a client sends back.
pub open spec fn offered_entry(m: CatalogEntry) -> Tree {
    Tree::Object(
        seq![
            ("name"@, Tree::Text(m.id@)),
            ("size"@, counted(m.size_bytes as nat)),
            ("digest"@, Tree::Text(m.digest@)),
            ("downloaded"@, Tree::Bool(m.present)),
            (
                "details"@,
                Tree::Object(catalog_details(m).push(("display_name"@, Tree::Text(m.name@)))),
            ),
        ],
    )
}

/// A model on disk that the catalog does not know.
pub open spec fn stored_entry(m: StoredModel) -> Tree {
    Tree::Object(
        seq![
            ("name"@, Tree::Text(m.id@)),
            ("size"@, counted(m.size_bytes as nat)),
            ("digest"@, Tree::Text(m.digest@)),
            ("downloaded"@, Tree::Bool(m.present)),
            (
                "details"@,
                Tree::Object(
                    seq![
                        ("format"@, Tree::Text("gguf"@)),
                        ("family"@, Tree::Text(m.base@)),
                        ("parameter_size"@, Tree::Text(""@)),
                        ("quantization_level"@, Tree::Text(""@)),
                        ("display_name"@, Tree::Text(m.name@)),
                    ],
                ),
            ),
        ],
    )
}

pub open spec fn is_loaded(m: CatalogEntry, loaded: Option<Seq<char>>) -> bool {
    loaded == Some(m.name@) || loaded == Some(m.id@)
}

/// The entry of the loaded model: the catalog's, where it knows the model.
pub open spec fn first_entry(name: Seq<char>, catalog: Seq<CatalogEntry>) -> Tree
    decreases catalog.len(),
{
    if catalog.len() == 0 {
        placeholder(name)
    } else if is_loaded(catalog.last(), Some(name)) {
        loaded_entry(catalog.last())
    } else {
        first_entry(name, catalog.drop_last())
    }
}

/// The name under which the loaded model stands in the list.
pub open spec fn first_name(name: Seq<char>, catalog: Seq<CatalogEntry>) -> Seq<char>
    decreases catalog.len(),
{
    if catalog.len() == 0 {
        name
    } else if is_loaded(catalog.last(), Some(name)) {
        catalog.last().id@
    } else {
        first_name(name, catalog.drop_last())
    }
}

/// The models of the catalog that are not loaded.
pub open spec fn offered(catalog: Seq<CatalogEntry>, loaded: Option<Seq<char>>) -> Seq<CatalogEntry>
    decreases catalog.len(),
{
    if catalog.len() == 0 {
        Seq::empty()
    } else if is_loaded(catalog.last(), loaded) {
        offered(catalog.drop_last(), loaded)
    } else {
        offered(catalog.drop_last(), loaded).push(catalog.last())
    }
}

/// The names that are listed before the store is looked at.
pub open spec fn listed_names(loaded: Option<Seq<char>>, catalog: Seq<CatalogEntry>) -> Seq<
    Seq<char>,
> {
    (match loaded {
        Some(n) => seq![first_name(n, catalog)],
        None => Seq::empty(),
    }) + offered(catalog, loaded).map_values(|m: CatalogEntry| m.id@)
}

/// The models of the store that are not listed yet.
pub open spec fn unlisted(stored: Seq<StoredModel>, names: Seq<Seq<char>>) -> Seq<StoredModel>
    decreases stored.len(),
{
    if stored.len() == 0 {
        Seq::empty()
    } else if stored.last().id@.len() == 0 || names.contains(stored.last().id@) {
        unlisted(stored.drop_last(), names)
    } else {
        unlisted(stored.drop_last(), names).push(stored.last())
    }
}

/// The entries of `/api/tags`: the loaded model first, then the rest of the
/// catalog, then what the store holds besides.
pub open spec fn tags(
    loaded: Option<Seq<char>>,
    catalog: Seq<CatalogEntry>,
    stored: Seq<StoredModel>,
) -> Seq<Tree> {
    (match loaded {
        Some(n) => seq![first_entry(n, catalog)],
        None => Seq::empty(),
    }) + offered(catalog, loaded).map_values(|m: CatalogEntry| offered_entry(m)) + unlisted(
        stored,
        listed_names(loaded, catalog),
    ).map_values(|m: StoredModel| stored_entry(m))
}

fn placeholder_json(name: &str) -> (r: Json)
    ensures
        tree(r) == placeholder(name@),
{
    let mut d: Vec<(String, Json)> = Vec::new();
    json::add_member(&mut d, "format", Json::text("gguf"));
    json::add_member(&mut d, "family", Json::text(""));
    json::add_member(&mut d, "parameter_size", Json::text(""));
    json::add_member(&mut d, "quantization_level", Json::text("Q4_K_M"));
    assert(members(d@) =~= seq![
        ("format"@, Tree::Text("gguf"@)),
        ("family"@, Tree::Text(""@)),
        ("parameter_size"@, Tree::Text(""@)),
        ("quantization_level"@, Tree::Text("Q4_K_M"@)),
    ]);
    let mut m: Vec<(String, Json)> = Vec::new();
    json::add_member(&mut m, "name", Json::text(name));
    json::add_member(&mut m, "size", Json::count(0));
    json::add_member(&mut m, "digest", Json::text(""));
    json::add_member(&mut m, "loaded", Json::Bool(true));
    json::add_member(&mut m, "details", Json::object(d));
    let r: Json = Json::object(m);
    assert(tree(r)->Object_0 =~= placeholder(name@)->Object_0);
    r
}

fn catalog_members(e: &CatalogEntry) -> (r: Vec<(String, Json)>)
    ensures
        members(r@) == catalog_details(*e),
{
    let mut d: Vec<(String, Json)> = Vec::new();
    json::add_member(&mut d, "format", Json::text("gguf"));
    json::add_member(&mut d, "family", Json::text(e.base.as_str()));
    json::add_member(&mut d, "parameter_size", Json::text(e.parameter_size.as_str()));
    json::add_member(&mut d, "quantization_level", Json::text(e.quantization.as_str()));
    json::add_member(&mut d, "domain", Json::text(e.domain.as_str()));
    json::add_member(&mut d, "source_model", Json::text(e.source_model.as_str()));
    assert(members(d@) =~= catalog_details(*e));
    d
}

fn head(id: &str, size: u64, digest: &str) -> (r: Vec<(String, Json)>)
    ensures
        members(r@) == seq![
            ("name"@, Tree::Text(id@)),
            ("size"@, counted(size as nat)),
            ("digest"@, Tree::Text(digest@)),
        ],
{
    let mut m: Vec<(String, Json)> = Vec::new();
    json::add_member(&mut m, "name", Json::text(id));
    json::add_member(&mut m, "size", Json::count(size));
    json::add_member(&mut m, "digest", Json::text(digest));
    assert(members(m@) =~= seq![
        ("name"@, Tree::Text(id@)),
        ("size"@, counted(size as nat)),
        ("digest"@, Tree::Text(digest@)),
    ]);
    m
}

fn catalog_json(e: &CatalogEntry, loaded: bool) -> (r: Json)
    ensures
        tree(r) == if loaded {
            loaded_entry(*e)
        } else {
            offered_entry(*e)
        },
{
    let mut d: Vec<(String, Json)> = catalog_members(e);
    json::add_member(&mut d, "display_name", Json::text(e.name.as_str()));
    let mut m: Vec<(String, Json)> = head(e.id.as_str(), e.size_bytes, e.digest.as_str());
    if loaded {
        json::add_member(&mut m, "loaded", Json::Bool(true));
        json::add_member(&mut m, "downloaded", Json::Bool(true));
    } else {
        json::add_member(&mut m, "downloaded", Json::Bool(e.present));
    }
    json::add_member(&mut m, "details", Json::object(d));
    let r: Json = Json::object(m);
    proof {
        if loaded {
            assert(tree(r)->Object_0 =~= loaded_entry(*e)->Object_0);
        } else {
            assert(tree(r)->Object_0 =~= offered_entry(*e)->Object_0);
        }
    }
    r
}

fn stored_json(e: &StoredModel) -> (r: Json)
    ensures
        tree(r) == stored_entry(*e),
{
    let mut d: Vec<(String, Json)> = Vec::new();
    json::add_member(&mut d, "format", Json::text("gguf"));
    json::add_member(&mut d, "family", Json::text(e.base.as_str()));
    json::add_member(&mut d, "parameter_size", Json::text(""));
    json::add_member(&mut d, "quantization_level", Json::text(""));
    json::add_member(&mut d, "display_name", Json::text(e.name.as_str()));
    assert(members(d@) =~= seq![
        ("format"@, Tree::Text("gguf"@)),
        ("family"@, Tree::Text(e.base@)),
        ("parameter_size"@, Tree::Text(""@)),
        ("quantization_level"@, Tree::Text(""@)),
        ("display_name"@, Tree::Text(e.name@)),
    ]);
    let mut m: Vec<(String, Json)> = head(e.id.as_str(), e.size_bytes, e.digest.as_str());
    json::add_member(&mut m, "downloaded", Json::Bool(e.present));
    json::add_member(&mut m, "details", Json::object(d));
    let r: Json = Json::object(m);
    assert(tree(r)->Object_0 =~= stored_entry(*e)->Object_0);
    r
}

fn is_named(loaded: Option<&str>, e: &CatalogEntry) -> (r: bool)
    ensures
        r == is_loaded(*e, opt_view(loaded)),
{
    match loaded {
        Some(n) => text::same_text(n, e.name.as_str()) || text::same_text(n, e.id.as_str()),
        None => false,
    }
}

/// Lists the models: the loaded one, the catalog, and what is on disk besides.
pub fn list_models(loaded: Option<&str>, catalog: &[CatalogEntry], stored: &[StoredModel]) -> (r:
    Json)
    ensures
        tree(r) == Tree::Object(
            seq![("models"@, Tree::Array(tags(opt_view(loaded), catalog@, stored@)))],
        ),
{
    let ghost who = opt_view(loaded);
    let mut first: Vec<Json> = Vec::new();
    let mut names: Vec<String> = Vec::new();
    let mut first_is: Option<String> = None;
    match loaded {
        Some(n) => {
            first.push(placeholder_json(n));
            first_is = Some(text::copy_text(n));
        },
        None => {},
    }
    let mut rest: Vec<Json> = Vec::new();
    let mut i: usize = 0;
    proof {
        assert(catalog@.take(0) =~= Seq::empty());
        assert(trees(rest@) =~= Seq::empty());
        assert(text::views(names@) =~= Seq::empty());
        assert(offered(catalog@.take(0), who).map_values(|m: CatalogEntry| offered_entry(m))
            =~= Seq::empty());
        assert(offered(catalog@.take(0), who).map_values(|m: CatalogEntry| m.id@)
            =~= Seq::empty());
        if who is Some {
            assert(trees(first@) =~= seq![first_entry(who->Some_0, catalog@.take(0))]);
        }
    }
    while i < catalog.len()
        invariant
            i <= catalog@.len(),
            who == opt_view(loaded),
            match who {
                Some(n) => {
                    &&& trees(first@) == seq![first_entry(n, catalog@.take(i as int))]
                    &&& first_is matches Some(f) && f@ == first_name(n, catalog@.take(i as int))
                },
                None => first@.len() == 0 && first_is is None,
            },
            trees(rest@) == offered(catalog@.take(i as int), who).map_values(
                |m: CatalogEntry| offered_entry(m),
            ),
            text::views(names@) == offered(catalog@.take(i as int), who).map_values(
                |m: CatalogEntry| m.id@,
            ),
        decreases catalog.len() - i,
    {
        let ghost part = catalog@.take(i + 1);
        let ghost e = catalog@[i as int];
        let ghost before = offered(catalog@.take(i as int), who);
        proof {
            assert(part.drop_last() =~= catalog@.take(i as int));
            assert(part.last() == e);
        }
        if is_named(loaded, &catalog[i]) {
            first = Vec::new();
            first.push(catalog_json(&catalog[i], true));
            first_is = Some(text::copy_text(catalog[i].id.as_str()));
            proof {
                assert(trees(first@) =~= seq![first_entry(who->Some_0, part)]);
            }
        } else {
            let ghost was = trees(rest@);
            let ghost had = text::views(names@);
            rest.push(catalog_json(&catalog[i], false));
            names.push(text::copy_text(catalog[i].id.as_str()));
            proof {
                assert(trees(rest@) =~= was.push(offered_entry(e)));
                assert(text::views(names@) =~= had.push(e.id@));
                assert(offered(part, who).map_values(|m: CatalogEntry| offered_entry(m))
                    =~= before.map_values(|m: CatalogEntry| offered_entry(m)).push(
                    offered_entry(e),
                ));
                assert(offered(part, who).map_values(|m: CatalogEntry| m.id@)
                    =~= before.map_values(|m: CatalogEntry| m.id@).push(e.id@));
            }
        }
        i = i + 1;
    }
    assert(catalog@.take(i as int) =~= catalog@);
    let ghost taken = listed_names(who, catalog@);
    let more: Vec<Json> = list_stored(stored, &first_is, &names, Ghost(taken));
    let mut all: Vec<Json> = Vec::new();
    all.append(&mut first);
    all.append(&mut rest);
    let mut tail: Vec<Json> = more;
    all.append(&mut tail);
    assert(trees(all@) =~= tags(who, catalog@, stored@));
    let mut m: Vec<(String, Json)> = Vec::new();
    json::add_member(&mut m, "models", Json::array(all));
    assert(members(m@) =~= seq![("models"@, Tree::Array(tags(who, catalog@, stored@)))]);
    Json::object(m)
}

fn list_stored(
    stored: &[StoredModel],
    first: &Option<String>,
    names: &[String],
    Ghost(taken): Ghost<Seq<Seq<char>>>,
) -> (r: Vec<Json>)
    requires
        taken == (match first {
            Some(f) => seq![f@],
            None => Seq::empty(),
        }) + text::views(names@),
    ensures
        trees(r@) == unlisted(stored@, taken).map_values(|m: StoredModel| stored_entry(m)),
{
    let mut r: Vec<Json> = Vec::new();
    let mut i: usize = 0;
    proof {
        assert(stored@.take(0) =~= Seq::empty());
        assert(trees(r@) =~= unlisted(stored@.take(0), taken).map_values(
            |m: StoredModel| stored_entry(m),
        ));
    }
    while i < stored.len()
        invariant
            i <= stored@.len(),
            taken == (match first {
                Some(f) => seq![f@],
                None => Seq::empty(),
            }) + text::views(names@),
            trees(r@) == unlisted(stored@.take(i as int), taken).map_values(
                |m: StoredModel| stored_entry(m),
            ),
        decreases stored.len() - i,
    {
        let ghost part = stored@.take(i + 1);
        let ghost e = stored@[i as int];
        let ghost before = unlisted(stored@.take(i as int), taken);
        assert(part.drop_last() =~= stored@.take(i as int));
        let id: &str = stored[i].id.as_str();
        let is_first: bool = match first {
            Some(f) => text::same_text(f.as_str(), id),
            None => false,
        };
        let known: bool = is_first || text::listed(names, id);
        proof {
            let head = match first {
                Some(f) => seq![f@],
                None => Seq::<Seq<char>>::empty(),
            };
            if is_first {
                assert(taken[0] == id@);
            }
            if text::views(names@).contains(id@) {
                let k = choose|k: int|
                    0 <= k < text::views(names@).len() && text::views(names@)[k] == id@;
                assert(taken[head.len() + k] == id@);
            }
            if taken.contains(id@) {
                let k = choose|k: int| 0 <= k < taken.len() && taken[k] == id@;
                if k >= head.len() {
                    assert(text::views(names@)[k - head.len()] == id@);
                }
            }
        }
        if !id.is_empty() && !known {
            let ghost was = trees(r@);
            r.push(stored_json(&stored[i]));
            proof {
                assert(trees(r@) =~= was.push(stored_entry(e)));
                assert(unlisted(part, taken).map_values(|m: StoredModel| stored_entry(m))
                    =~= before.map_values(|m: StoredModel| stored_entry(m)).push(
                    stored_entry(e),
                ));
            }
        }
        i = i + 1;
    }
    assert(stored@.take(i as int) =~= stored@);
    r
}

proof fn lemma_unlisted_has(stored: Seq<StoredModel>, names: Seq<Seq<char>>, i: int)
    requires
        0 <= i < stored.len(),
        stored[i].id@.len() > 0,
        !names.contains(stored[i].id@),
    ensures
        unlisted(stored, names).contains(stored[i]),
    decreases stored.len(),
{
    let before = unlisted(stored.drop_last(), names);
    if i == stored.len() - 1 {
        assert(unlisted(stored, names)[before.len() as int] == stored[i]);
    } else {
        lemma_unlisted_has(stored.drop_last(), names, i);
        let k = choose|k: int| 0 <= k < before.len() && before[k] == stored[i];
        assert(unlisted(stored, names)[k] == stored[i]);
    }
}

proof fn lemma_first_is_named(name: Seq<char>, catalog: Seq<CatalogEntry>)
    ensures
        names_entry(first_entry(name, catalog), first_name(name, catalog)),
    decreases catalog.len(),
{
    if catalog.len() > 0 && !is_loaded(catalog.last(), Some(name)) {
        lemma_first_is_named(name, catalog.drop_last());
    }
}

/// An entry stands under a name.
pub open spec fn names_entry(t: Tree, name: Seq<char>) -> bool {
    t matches Tree::Object(m) && m.len() > 0 && m[0] == ("name"@, Tree::Text(name))
}

/// A model that is on disk is listed, whether or not it is loaded and whether or
/// not the catalog knows it.
pub proof fn law_every_stored_model_is_listed(
    loaded: Option<Seq<char>>,
    catalog: Seq<CatalogEntry>,
    stored: Seq<StoredModel>,
    i: int,
)
    requires
        0 <= i < stored.len(),
        stored[i].id@.len() > 0,
    ensures
        exists|k: int|
            0 <= k < tags(loaded, catalog, stored).len() && #[trigger] names_entry(
                tags(loaded, catalog, stored)[k],
                stored[i].id@,
            ),
{
    let all = tags(loaded, catalog, stored);
    let names = listed_names(loaded, catalog);
    let id = stored[i].id@;
    let rest = offered(catalog, loaded);
    let first = match loaded {
        Some(n) => seq![first_entry(n, catalog)],
        None => Seq::<Tree>::empty(),
    };
    if names.contains(id) {
        let k = choose|k: int| 0 <= k < names.len() && names[k] == id;
        if k < first.len() {
            lemma_first_is_named(loaded->Some_0, catalog);
            assert(names_entry(all[0], id));
        } else {
            assert(rest[k - first.len()].id@ == id);
            assert(all[k] == offered_entry(rest[k - first.len()]));
            assert(names_entry(all[k], id));
        }
    } else {
        lemma_unlisted_has(stored, names, i);
        let more = unlisted(stored, names);
        let k = choose|k: int| 0 <= k < more.len() && more[k] == stored[i];
        let at = first.len() + rest.len() + k;
        assert(all[at] == stored_entry(more[k]));
        assert(names_entry(all[at], id));
    }
}

/// A loaded model comes first and is marked as loaded.
pub proof fn law_the_loaded_model_comes_first(
    name: Seq<char>,
    catalog: Seq<CatalogEntry>,
    stored: Seq<StoredModel>,
)
    ensures
        tags(Some(name), catalog, stored).len() > 0,
        ({
            let t = tags(Some(name), catalog, stored)[0];
            t matches Tree::Object(m) && m.len() > 3 && m[3] == ("loaded"@, Tree::Bool(true))
        }),
    decreases catalog.len(),
{
    if catalog.len() > 0 && !is_loaded(catalog.last(), Some(name)) {
        law_the_loaded_model_comes_first(name, catalog.drop_last(), stored);
    }
}

/// The ids of the models in the store, in order; one without an id is left out.
pub open spec fn stored_ids(stored: Seq<StoredModel>) -> Seq<Seq<char>>
    decreases stored.len(),
{
    if stored.len() == 0 {
        Seq::empty()
    } else if stored.last().id@.len() == 0 {
        stored_ids(stored.drop_last())
    } else {
        stored_ids(stored.drop_last()).push(stored.last().id@)
    }
}

pub fn local_model_ids(stored: &[StoredModel]) -> (r: Vec<String>)
    ensures
        text::views(r@) == stored_ids(stored@),
{
    let mut r: Vec<String> = Vec::new();
    let mut i: usize = 0;
    assert(stored@.take(0) =~= Seq::empty());
    assert(text::views(r@) =~= Seq::empty());
    while i < stored.len()
        invariant
            i <= stored@.len(),
            text::views(r@) == stored_ids(stored@.take(i as int)),
        decreases stored.len() - i,
    {
        assert(stored@.take(i + 1).drop_last() =~= stored@.take(i as int));
        let ghost before = text::views(r@);
        if !stored[i].id.as_str().is_empty() {
            r.push(text::copy_text(stored[i].id.as_str()));
            assert(text::views(r@) =~= before.push(stored@[i as int].id@));
        }
        i = i + 1;
    }
    assert(stored@.take(i as int) =~= stored@);
    r
}

/// Each of a list once, in order of first appearance.
pub open spec fn once(ids: Seq<Seq<char>>) -> Seq<Seq<char>>
    decreases ids.len(),
{
    if ids.len() == 0 {
        Seq::empty()
    } else {
        let before = once(ids.drop_last());
        if before.contains(ids.last()) {
            before
        } else {
            before.push(ids.last())
        }
    }
}

/// The ids of `ids` that are not among `seen`.
pub open spec fn not_among(ids: Seq<Seq<char>>, seen: Seq<Seq<char>>) -> Seq<Seq<char>>
    decreases ids.len(),
{
    if ids.len() == 0 {
        Seq::empty()
    } else if seen.contains(ids.last()) {
        not_among(ids.drop_last(), seen)
    } else {
        not_among(ids.drop_last(), seen).push(ids.last())
    }
}

/// What is on this machine: the store's models, and the loaded one where it was
/// launched from a path and is not in the store.
pub open spec fn at_hand(local: Seq<Seq<char>>, loaded: Option<Seq<char>>) -> Seq<Seq<char>> {
    match loaded {
        Some(n) => once(local.push(n)),
        None => once(local),
    }
}

/// The ids of `/v1/models`: what is on this machine, then the rest of the
/// catalog.
pub open spec fn model_ids(
    local: Seq<Seq<char>>,
    loaded: Option<Seq<char>>,
    catalog: Seq<CatalogEntry>,
) -> Seq<Seq<char>> {
    at_hand(local, loaded) + not_among(
        catalog.map_values(|m: CatalogEntry| m.id@),
        at_hand(local, loaded),
    )
}

pub open spec fn openai_entry(id: Seq<char>) -> Tree {
    Tree::Object(
        seq![
            ("id"@, Tree::Text(id)),
            ("object"@, Tree::Text("model"@)),
            ("created"@, counted(1_700_000_000)),
            ("owned_by"@, Tree::Text("eullm"@)),
        ],
    )
}

fn openai_json(id: &str) -> (r: Json)
    ensures
        tree(r) == openai_entry(id@),
{
    let mut m: Vec<(String, Json)> = Vec::new();
    json::add_member(&mut m, "id", Json::text(id));
    json::add_member(&mut m, "object", Json::text("model"));
    json::add_member(&mut m, "created", Json::count(1_700_000_000));
    json::add_member(&mut m, "owned_by", Json::text("eullm"));
    let r: Json = Json::object(m);
    assert(tree(r)->Object_0 =~= openai_entry(id@)->Object_0);
    r
}

fn ids_at_hand(local: &[String], loaded: Option<&str>) -> (r: Vec<String>)
    ensures
        text::views(r@) == at_hand(text::views(local@), opt_view(loaded)),
{
    let ghost ids = text::views(local@);
    let mut r: Vec<String> = Vec::new();
    let mut i: usize = 0;
    assert(ids.take(0) =~= Seq::empty());
    assert(text::views(r@) =~= Seq::empty());
    while i < local.len()
        invariant
            i <= local@.len(),
            ids == text::views(local@),
            text::views(r@) == once(ids.take(i as int)),
        decreases local.len() - i,
    {
        assert(ids.take(i + 1).drop_last() =~= ids.take(i as int));
        let ghost before = text::views(r@);
        if !text::listed(&r, local[i].as_str()) {
            r.push(text::copy_text(local[i].as_str()));
            assert(text::views(r@) =~= before.push(ids[i as int]));
        }
        i = i + 1;
    }
    assert(ids.take(i as int) =~= ids);
    match loaded {
        Some(n) => {
            assert(ids.push(n@).drop_last() =~= ids);
            let ghost before = text::views(r@);
            if !text::listed(&r, n) {
                r.push(text::copy_text(n));
                assert(text::views(r@) =~= before.push(n@));
            }
        },
        None => {},
    }
    r
}

/// Lists the models in OpenAI's format. The id is what a client sends back.
pub fn list_models_openai(local: &[String], loaded: Option<&str>, catalog: &[CatalogEntry]) -> (r:
    Json)
    ensures
        tree(r) == Tree::Object(
            seq![
                ("object"@, Tree::Text("list"@)),
                (
                    "data"@,
                    Tree::Array(
                        model_ids(text::views(local@), opt_view(loaded), catalog@).map_values(
                            |id: Seq<char>| openai_entry(id),
                        ),
                    ),
                ),
            ],
        ),
{
    let seen: Vec<String> = ids_at_hand(local, loaded);
    let ghost have = text::views(seen@);
    let ghost entry = |id: Seq<char>| openai_entry(id);
    let ghost all = catalog@.map_values(|m: CatalogEntry| m.id@);
    let mut data: Vec<Json> = Vec::new();
    let mut i: usize = 0;
    assert(trees(data@) =~= have.take(0).map_values(entry));
    while i < seen.len()
        invariant
            i <= seen@.len(),
            have == text::views(seen@),
            entry == (|id: Seq<char>| openai_entry(id)),
            trees(data@) == have.take(i as int).map_values(entry),
        decreases seen.len() - i,
    {
        let ghost before = trees(data@);
        data.push(openai_json(seen[i].as_str()));
        assert(trees(data@) =~= before.push(openai_entry(have[i as int])));
        assert(have.take(i + 1).map_values(entry) =~= have.take(i as int).map_values(entry).push(
            openai_entry(have[i as int]),
        ));
        i = i + 1;
    }
    assert(have.take(i as int) =~= have);
    let ghost start = have.map_values(entry);
    let mut k: usize = 0;
    assert(all.take(0) =~= Seq::empty());
    assert(trees(data@) =~= start + not_among(all.take(0), have).map_values(entry));
    while k < catalog.len()
        invariant
            k <= catalog@.len(),
            have == text::views(seen@),
            entry == (|id: Seq<char>| openai_entry(id)),
            all == catalog@.map_values(|m: CatalogEntry| m.id@),
            trees(data@) == start + not_among(all.take(k as int), have).map_values(entry),
        decreases catalog.len() - k,
    {
        assert(all.take(k + 1).drop_last() =~= all.take(k as int));
        let ghost before = trees(data@);
        let ghost some = not_among(all.take(k as int), have);
        if !text::listed(&seen, catalog[k].id.as_str()) {
            data.push(openai_json(catalog[k].id.as_str()));
            assert(trees(data@) =~= before.push(openai_entry(all[k as int])));
            assert(some.push(all[k as int]).map_values(entry) =~= some.map_values(entry).push(
                openai_entry(all[k as int]),
            ));
            assert(trees(data@) =~= start + some.push(all[k as int]).map_values(entry));
        }
        k = k + 1;
    }
    assert(all.take(k as int) =~= all);
    let ghost want = model_ids(text::views(local@), opt_view(loaded), catalog@);
    assert(trees(data@) =~= want.map_values(entry));
    let mut m: Vec<(String, Json)> = Vec::new();
    json::add_member(&mut m, "object", Json::text("list"));
    json::add_member(&mut m, "data", Json::array(data));
    let r: Json = Json::object(m);
    assert(tree(r)->Object_0 =~= seq![
        ("object"@, Tree::Text("list"@)),
        ("data"@, Tree::Array(want.map_values(entry))),
    ]);
    r
}

proof fn lemma_once_has(ids: Seq<Seq<char>>, i: int)
    requires
        0 <= i < ids.len(),
    ensures
        once(ids).contains(ids[i]),
    decreases ids.len(),
{
    let before = once(ids.drop_last());
    if i == ids.len() - 1 {
        if !before.contains(ids.last()) {
            assert(once(ids)[before.len() as int] == ids[i]);
        }
    } else {
        lemma_once_has(ids.drop_last(), i);
        let k = choose|k: int| 0 <= k < before.len() && before[k] == ids[i];
        assert(once(ids)[k] == ids[i]);
    }
}

/// A model on this machine can be picked: the store's models and the loaded one
/// are all among the ids.
pub proof fn law_what_is_at_hand_can_be_picked(
    local: Seq<Seq<char>>,
    loaded: Option<Seq<char>>,
    catalog: Seq<CatalogEntry>,
    id: Seq<char>,
)
    requires
        local.contains(id) || loaded == Some(id),
    ensures
        model_ids(local, loaded, catalog).contains(id),
{
    let all = match loaded {
        Some(n) => local.push(n),
        None => local,
    };
    let i = if local.contains(id) {
        choose|i: int| 0 <= i < local.len() && local[i] == id
    } else {
        local.len() as int
    };
    assert(all[i] == id);
    lemma_once_has(all, i);
    let have = at_hand(local, loaded);
    let k = choose|k: int| 0 <= k < have.len() && have[k] == id;
    assert(model_ids(local, loaded, catalog)[k] == id);
}

/// What `/api/show` says of a model of the catalog.
pub open spec fn shown(m: CatalogEntry) -> Tree {
    Tree::Object(
        seq![
            (
                "modelfile"@,
                Tree::Text(
                    "# EULLM model: "@ + m.name@ + "\n# Domain: "@ + m.domain@ + "\n# Base: "@
                        + m.base@ + "\n# Source: "@ + m.source_model@ + "\n# License: "@
                        + m.license@,
                ),
            ),
            ("parameters"@, Tree::Text("num_ctx 4096\ntemperature 0.7"@)),
            ("template"@, Tree::Text("{{ .Prompt }}"@)),
            ("details"@, Tree::Object(catalog_details(m))),
        ],
    )
}

/// Shows a model that the catalog was asked for by name.
pub fn show_model(name: &str, entry: Option<&CatalogEntry>) -> (r: Json)
    ensures
        tree(r) == (match entry {
            Some(e) => shown(*e),
            None => error_tree("model '"@ + name@ + "' not found"@),
        }),
{
    match entry {
        Some(e) => {
            let mut f: String = text::copy_text("# EULLM model: ");
            f.append(e.name.as_str());
            f.append("\n# Domain: ");
            f.append(e.domain.as_str());
            f.append("\n# Base: ");
            f.append(e.base.as_str());
            f.append("\n# Source: ");
            f.append(e.source_model.as_str());
            f.append("\n# License: ");
            f.append(e.license.as_str());
            let mut m: Vec<(String, Json)> = Vec::new();
            json::add_member(&mut m, "modelfile", Json::text(f.as_str()));
            json::add_member(&mut m, "parameters", Json::text("num_ctx 4096\ntemperature 0.7"));
            json::add_member(&mut m, "template", Json::text("{{ .Prompt }}"));
            json::add_member(&mut m, "details", Json::object(catalog_members(e)));
            let r: Json = Json::object(m);
            assert(tree(r)->Object_0 =~= shown(*e)->Object_0);
            r
        },
        None => {
            let mut t: String = text::copy_text("model '");
            t.append(name);
            t.append("' not found");
            error_body(t.as_str())
        },
    }
}

/// What `/api/pull` answers.
pub fn pull_model(name: &str) -> (r: Json)
    ensures
        tree(r) == Tree::Object(
            seq![
                (
                    "status"@,
                    Tree::Text(
                        "pulling "@ + name@ + " from EU registry (not yet implemented)"@,
                    ),
                ),
            ],
        ),
{
    let mut t: String = text::copy_text("pulling ");
    t.append(name);
    t.append(" from EU registry (not yet implemented)");
    let mut m: Vec<(String, Json)> = Vec::new();
    json::add_member(&mut m, "status", Json::text(t.as_str()));
    assert(members(m@) =~= seq![
        (
            "status"@,
            Tree::Text("pulling "@ + name@ + " from EU registry (not yet implemented)"@),
        ),
    ]);
    Json::object(m)
}

proof fn lemma_offered_has(catalog: Seq<CatalogEntry>, loaded: Option<Seq<char>>, i: int)
    requires
        0 <= i < catalog.len(),
        loaded != Some(catalog[i].name@),
        loaded != Some(catalog[i].id@),
    ensures
        offered(catalog, loaded).contains(catalog[i]),
    decreases catalog.len(),
{
    let before = offered(catalog.drop_last(), loaded);
    if i == catalog.len() - 1 {
        assert(offered(catalog, loaded)[before.len() as int] == catalog[i]);
    } else {
        lemma_offered_has(catalog.drop_last(), loaded, i);
        let k = choose|k: int| 0 <= k < before.len() && before[k] == catalog[i];
        assert(offered(catalog, loaded)[k] == catalog[i]);
    }
}

/// A model of the catalog is listed with its id, size and digest, with whether
/// it is on disk, and with what the catalog says of it.
pub proof fn law_every_catalog_model_is_listed(
    loaded: Option<Seq<char>>,
    catalog: Seq<CatalogEntry>,
    stored: Seq<StoredModel>,
    i: int,
)
    requires
        0 <= i < catalog.len(),
        loaded != Some(catalog[i].name@),
        loaded != Some(catalog[i].id@),
    ensures
        exists|k: int|
            0 <= k < tags(loaded, catalog, stored).len() && #[trigger] names_entry(
                tags(loaded, catalog, stored)[k],
                catalog[i].id@,
            ) && tells(
                tags(loaded, catalog, stored)[k],
                catalog[i].size_bytes,
                catalog[i].digest@,
                catalog[i].present,
            ) && describes(tags(loaded, catalog, stored)[k], catalog[i]),
{
    let all = tags(loaded, catalog, stored);
    let rest = offered(catalog, loaded);
    lemma_offered_has(catalog, loaded, i);
    let k = choose|k: int| 0 <= k < rest.len() && rest[k] == catalog[i];
    let first: int = if loaded is Some {
        1
    } else {
        0
    };
    let at = first + k;
    assert(all[at] == offered_entry(catalog[i]));
    lemma_offered_tells(catalog[i]);
    assert(names_entry(all[at], catalog[i].id@));
}

/// An entry says how large a model is, what its digest is, and whether it is on
/// disk.
pub open spec fn tells(t: Tree, size: u64, digest: Seq<char>, present: bool) -> bool {
    &&& t matches Tree::Object(m)
    &&& m.contains(("size"@, Tree::Number(text::decimal(size as nat), None)))
    &&& m.contains(("digest"@, Tree::Text(digest)))
    &&& m.contains(("downloaded"@, Tree::Bool(present)))
}

/// An entry says of a model what the catalog does.
pub open spec fn describes(t: Tree, e: CatalogEntry) -> bool {
    &&& t matches Tree::Object(m)
    &&& exists|d: Seq<(Seq<char>, Tree)>| #[trigger]
        m.contains(("details"@, Tree::Object(d))) && d.contains(("family"@, Tree::Text(e.base@)))
            && d.contains(("parameter_size"@, Tree::Text(e.parameter_size@))) && d.contains(
            ("quantization_level"@, Tree::Text(e.quantization@)),
        ) && d.contains(("domain"@, Tree::Text(e.domain@))) && d.contains(
            ("source_model"@, Tree::Text(e.source_model@)),
        ) && d.contains(("display_name"@, Tree::Text(e.name@)))
}

proof fn lemma_details_say(e: CatalogEntry)
    ensures
        ({
            let d = catalog_details(e).push(("display_name"@, Tree::Text(e.name@)));
            &&& d.contains(("family"@, Tree::Text(e.base@)))
            &&& d.contains(("parameter_size"@, Tree::Text(e.parameter_size@)))
            &&& d.contains(("quantization_level"@, Tree::Text(e.quantization@)))
            &&& d.contains(("domain"@, Tree::Text(e.domain@)))
            &&& d.contains(("source_model"@, Tree::Text(e.source_model@)))
            &&& d.contains(("display_name"@, Tree::Text(e.name@)))
        }),
{
    let d = catalog_details(e).push(("display_name"@, Tree::Text(e.name@)));
    assert(d[1] == ("family"@, Tree::Text(e.base@)));
    assert(d[2] == ("parameter_size"@, Tree::Text(e.parameter_size@)));
    assert(d[3] == ("quantization_level"@, Tree::Text(e.quantization@)));
    assert(d[4] == ("domain"@, Tree::Text(e.domain@)));
    assert(d[5] == ("source_model"@, Tree::Text(e.source_model@)));
    assert(d[6] == ("display_name"@, Tree::Text(e.name@)));
}

proof fn lemma_offered_tells(e: CatalogEntry)
    ensures
        tells(offered_entry(e), e.size_bytes, e.digest@, e.present),
        describes(offered_entry(e), e),
        tells(loaded_entry(e), e.size_bytes, e.digest@, true),
        describes(loaded_entry(e), e),
{
    lemma_details_say(e);
    let d = catalog_details(e).push(("display_name"@, Tree::Text(e.name@)));
    let m = offered_entry(e)->Object_0;
    assert(m[1] == ("size"@, counted(e.size_bytes as nat)));
    assert(m[2] == ("digest"@, Tree::Text(e.digest@)));
    assert(m[3] == ("downloaded"@, Tree::Bool(e.present)));
    assert(m[4] == ("details"@, Tree::Object(d)));
    assert(m.contains(("details"@, Tree::Object(d))));
    let n = loaded_entry(e)->Object_0;
    assert(n[1] == ("size"@, counted(e.size_bytes as nat)));
    assert(n[2] == ("digest"@, Tree::Text(e.digest@)));
    assert(n[4] == ("downloaded"@, Tree::Bool(true)));
    assert(n[5] == ("details"@, Tree::Object(d)));
    assert(n.contains(("details"@, Tree::Object(d))));
}

/// A loaded model that the catalog knows, by its name or its id, stands first,
/// under its id, as the catalog describes it; one that it does not know stands
/// there under its own name.
pub proof fn law_the_loaded_model_is_described(
    name: Seq<char>,
    catalog: Seq<CatalogEntry>,
    stored: Seq<StoredModel>,
)
    ensures
        ({
            let t = tags(Some(name), catalog, stored)[0];
            if exists|i: int|
                0 <= i < catalog.len() && (name == (#[trigger] catalog[i]).name@ || name
                    == catalog[i].id@) {
                exists|i: int|
                    0 <= i < catalog.len() && (name == (#[trigger] catalog[i]).name@ || name
                        == catalog[i].id@) && names_entry(t, catalog[i].id@) && tells(
                        t,
                        catalog[i].size_bytes,
                        catalog[i].digest@,
                        true,
                    ) && describes(t, catalog[i])
            } else {
                names_entry(t, name)
            }
        }),
    decreases catalog.len(),
{
    let t = tags(Some(name), catalog, stored)[0];
    assert(t == first_entry(name, catalog));
    if catalog.len() > 0 {
        let last = catalog.last();
        let k = catalog.len() - 1;
        assert(last == catalog[k]);
        if is_loaded(last, Some(name)) {
            lemma_offered_tells(last);
            assert(names_entry(t, catalog[k].id@));
        } else {
            let c = catalog.drop_last();
            law_the_loaded_model_is_described(name, c, stored);
            if exists|i: int|
                0 <= i < catalog.len() && (name == (#[trigger] catalog[i]).name@ || name
                    == catalog[i].id@) {
                let i = choose|i: int|
                    0 <= i < catalog.len() && (name == (#[trigger] catalog[i]).name@ || name
                        == catalog[i].id@);
                assert(c[i] == catalog[i]);
                let j = choose|j: int|
                    0 <= j < c.len() && (name == (#[trigger] c[j]).name@ || name == c[j].id@)
                        && names_entry(t, c[j].id@) && tells(
                        t,
                        c[j].size_bytes,
                        c[j].digest@,
                        true,
                    ) && describes(t, c[j]);
                assert(catalog[j] == c[j]);
            } else {
                assert forall|i: int| 0 <= i < c.len() implies !(name == (#[trigger] c[i]).name@
                    || name == c[i].id@) by {
                    assert(c[i] == catalog[i]);
                }
            }
        }
    }
}

/// A model of the store that nothing else lists is listed with its size, its
/// digest and whether it is on disk.
pub proof fn law_a_stored_model_tells_of_itself(m: StoredModel)
    ensures
        names_entry(stored_entry(m), m.id@),
        tells(stored_entry(m), m.size_bytes, m.digest@, m.present),
{
    let s = stored_entry(m)->Object_0;
    assert(s[1] == ("size"@, counted(m.size_bytes as nat)));
    assert(s[2] == ("digest"@, Tree::Text(m.digest@)));
    assert(s[3] == ("downloaded"@, Tree::Bool(m.present)));
}

proof fn lemma_unlisted_is_new(stored: Seq<StoredModel>, names: Seq<Seq<char>>)
    ensures
        forall|i: int|
            0 <= i < unlisted(stored, names).len() ==> stored.contains(
                #[trigger] unlisted(stored, names)[i],
            ) && !names.contains(unlisted(stored, names)[i].id@),
    decreases stored.len(),
{
    if stored.len() > 0 {
        lemma_unlisted_is_new(stored.drop_last(), names);
        let u = unlisted(stored, names);
        let before = unlisted(stored.drop_last(), names);
        assert forall|i: int| 0 <= i < u.len() implies stored.contains(#[trigger] u[i])
            && !names.contains(u[i].id@) by {
            if i < before.len() {
                assert(u[i] == before[i]);
                let k = choose|k: int|
                    0 <= k < stored.drop_last().len() && stored.drop_last()[k] == before[i];
                assert(stored[k] == u[i]);
            } else {
                assert(stored[stored.len() - 1] == u[i]);
            }
        }
    }
}

/// Nothing of the store is listed a second time: what the catalog or the slot
/// lists already is left to them.
pub proof fn law_the_store_adds_what_is_not_listed(
    loaded: Option<Seq<char>>,
    catalog: Seq<CatalogEntry>,
    stored: Seq<StoredModel>,
    i: int,
)
    requires
        0 <= i < unlisted(stored, listed_names(loaded, catalog)).len(),
    ensures
        ({
            let m = unlisted(stored, listed_names(loaded, catalog))[i];
            &&& stored.contains(m)
            &&& forall|k: int|
                0 <= k < catalog.len() && loaded != Some((#[trigger] catalog[k]).name@) && loaded
                    != Some(catalog[k].id@) ==> catalog[k].id@ != m.id@
        }),
{
    let names = listed_names(loaded, catalog);
    lemma_unlisted_is_new(stored, names);
    let m = unlisted(stored, names)[i];
    assert forall|k: int|
        0 <= k < catalog.len() && loaded != Some((#[trigger] catalog[k]).name@) && loaded != Some(
            catalog[k].id@,
        ) implies catalog[k].id@ != m.id@ by {
        lemma_offered_has(catalog, loaded, k);
        let rest = offered(catalog, loaded);
        let j = choose|j: int| 0 <= j < rest.len() && rest[j] == catalog[k];
        let first: int = if loaded is Some {
            1
        } else {
            0
        };
        assert(names[first + j] == catalog[k].id@);
    }
}

proof fn lemma_once_is_once(ids: Seq<Seq<char>>)
    ensures
        once(ids).no_duplicates(),
        forall|x: Seq<char>| #[trigger] once(ids).contains(x) ==> ids.contains(x),
    decreases ids.len(),
{
    if ids.len() > 0 {
        lemma_once_is_once(ids.drop_last());
        let before = once(ids.drop_last());
        let now = once(ids);
        assert forall|x: Seq<char>| #[trigger] now.contains(x) implies ids.contains(x) by {
            let k = choose|k: int| 0 <= k < now.len() && now[k] == x;
            if k < before.len() {
                assert(before[k] == x);
                assert(before.contains(x));
                let j = choose|j: int| 0 <= j < ids.drop_last().len() && ids.drop_last()[j] == x;
                assert(ids[j] == x);
            } else {
                assert(ids[ids.len() - 1] == x);
            }
        }
    }
}

proof fn lemma_not_among(ids: Seq<Seq<char>>, seen: Seq<Seq<char>>)
    ensures
        forall|x: Seq<char>| #[trigger]
            not_among(ids, seen).contains(x) <==> ids.contains(x) && !seen.contains(x),
    decreases ids.len(),
{
    if ids.len() > 0 {
        lemma_not_among(ids.drop_last(), seen);
        let before = not_among(ids.drop_last(), seen);
        let now = not_among(ids, seen);
        assert forall|x: Seq<char>| #[trigger] now.contains(x) <==> ids.contains(x)
            && !seen.contains(x) by {
            if now.contains(x) {
                let k = choose|k: int| 0 <= k < now.len() && now[k] == x;
                if k < before.len() {
                    assert(before[k] == x);
                    assert(before.contains(x));
                    let j = choose|j: int|
                        0 <= j < ids.drop_last().len() && ids.drop_last()[j] == x;
                    assert(ids[j] == x);
                } else {
                    assert(ids[ids.len() - 1] == x);
                }
            }
            if ids.contains(x) && !seen.contains(x) {
                let j = choose|j: int| 0 <= j < ids.len() && ids[j] == x;
                if j < ids.len() - 1 {
                    assert(ids.drop_last()[j] == x);
                    assert(before.contains(x));
                    let k = choose|k: int| 0 <= k < before.len() && before[k] == x;
                    assert(now[k] == x);
                } else {
                    assert(now[now.len() - 1] == x);
                }
            }
        }
    }
}

/// The ids that can be picked are those of the store, of the loaded model and of
/// the catalog, and no others; what is on this machine comes first, and nothing
/// of it twice or again among the catalog's.
pub proof fn law_the_ids_are_those_there_are(
    local: Seq<Seq<char>>,
    loaded: Option<Seq<char>>,
    catalog: Seq<CatalogEntry>,
    x: Seq<char>,
)
    ensures
        model_ids(local, loaded, catalog).contains(x) <==> local.contains(x) || loaded == Some(x)
            || exists|i: int| 0 <= i < catalog.len() && (#[trigger] catalog[i]).id@ == x,
        at_hand(local, loaded).no_duplicates(),
        ({
            let n = at_hand(local, loaded).len() as int;
            let all = model_ids(local, loaded, catalog);
            &&& n <= all.len()
            &&& forall|i: int|
                0 <= i < n ==> local.contains(#[trigger] all[i]) || loaded == Some(all[i])
            &&& forall|i: int, j: int|
                0 <= i < n && n <= j < all.len() ==> #[trigger] all[i] != #[trigger] all[j]
        }),
{
    let all = match loaded {
        Some(n) => local.push(n),
        None => local,
    };
    let have = at_hand(local, loaded);
    lemma_once_is_once(all);
    let ids = catalog.map_values(|m: CatalogEntry| m.id@);
    lemma_not_among(ids, have);
    let more = not_among(ids, have);
    let every = model_ids(local, loaded, catalog);
    assert forall|y: Seq<char>| #[trigger] all.contains(y) implies local.contains(y) || loaded
        == Some(y) by {
        let k = choose|k: int| 0 <= k < all.len() && all[k] == y;
        if k < local.len() {
            assert(local[k] == y);
        }
    }
    assert forall|i: int| 0 <= i < have.len() implies local.contains(#[trigger] every[i]) || loaded
        == Some(every[i]) by {
        assert(have[i] == every[i]);
        assert(have.contains(every[i]));
        assert(all.contains(every[i]));
    }
    assert forall|i: int, j: int|
        0 <= i < have.len() && have.len() <= j < every.len() implies #[trigger] every[i]
        != #[trigger] every[j] by {
        assert(have[i] == every[i]);
        assert(more[j - have.len()] == every[j]);
        assert(more.contains(every[j]));
        assert(have.contains(have[i]));
    }
    if every.contains(x) {
        let k = choose|k: int| 0 <= k < every.len() && every[k] == x;
        if k >= have.len() {
            assert(more[k - have.len()] == x);
            assert(more.contains(x));
            let i = choose|i: int| 0 <= i < ids.len() && ids[i] == x;
            assert(catalog[i].id@ == x);
        }
    }
    if local.contains(x) || loaded == Some(x) {
        law_what_is_at_hand_can_be_picked(local, loaded, catalog, x);
    }
    if exists|i: int| 0 <= i < catalog.len() && (#[trigger] catalog[i]).id@ == x {
        let i = choose|i: int| 0 <= i < catalog.len() && (#[trigger] catalog[i]).id@ == x;
        assert(ids[i] == x);
        assert(ids.contains(x));
        if have.contains(x) {
            let k = choose|k: int| 0 <= k < have.len() && have[k] == x;
            assert(every[k] == x);
        } else {
            assert(more.contains(x));
            let k = choose|k: int| 0 <= k < more.len() && more[k] == x;
            assert(every[have.len() + k] == x);
        }
    }
}

/// A model of the catalog is shown with its name, domain, base, source and
/// license, and with what the catalog says of it.
pub proof fn law_a_shown_model_tells_where_it_comes_from(e: CatalogEntry)
    ensures
        ({
            &&& shown(e) matches Tree::Object(m)
            &&& m.contains(
                (
                    "modelfile"@,
                    Tree::Text(
                        "# EULLM model: "@ + e.name@ + "\n# Domain: "@ + e.domain@ + "\n# Base: "@
                            + e.base@ + "\n# Source: "@ + e.source_model@ + "\n# License: "@
                            + e.license@,
                    ),
                ),
            )
            &&& exists|d: Seq<(Seq<char>, Tree)>| #[trigger]
                m.contains(("details"@, Tree::Object(d))) && d.contains(
                    ("family"@, Tree::Text(e.base@)),
                ) && d.contains(("parameter_size"@, Tree::Text(e.parameter_size@)))
                    && d.contains(("quantization_level"@, Tree::Text(e.quantization@)))
                    && d.contains(("domain"@, Tree::Text(e.domain@))) && d.contains(
                    ("source_model"@, Tree::Text(e.source_model@)),
                )
        }),
{
    let d = catalog_details(e);
    assert(d[1] == ("family"@, Tree::Text(e.base@)));
    assert(d[2] == ("parameter_size"@, Tree::Text(e.parameter_size@)));
    assert(d[3] == ("quantization_level"@, Tree::Text(e.quantization@)));
    assert(d[4] == ("domain"@, Tree::Text(e.domain@)));
    assert(d[5] == ("source_model"@, Tree::Text(e.source_model@)));
    let m = shown(e)->Object_0;
    assert(m[0] == (
        "modelfile"@,
        Tree::Text(
            "# EULLM model: "@ + e.name@ + "\n# Domain: "@ + e.domain@ + "\n# Base: "@ + e.base@
                + "\n# Source: "@ + e.source_model@ + "\n# License: "@ + e.license@,
        ),
    ));
    assert(m[3] == ("details"@, Tree::Object(d)));
    assert(m.contains(("details"@, Tree::Object(d))));
}

} // verus!
