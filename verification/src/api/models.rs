//! Model names: how they are written, compared and looked up.
use crate::api::auth::{opt_pair_view, opt_view};
use crate::text;
use vstd::prelude::*;
use vstd::slice::slice_subrange;

verus! {

/// Why a model could not be made ready.
#[derive(Debug, PartialEq, Eq)]
pub enum ModelError {
    /// No such model, by any accepted spelling: the client's mistake.
    NotFound(String),
    /// The model exists but could not be loaded: the server's.
    LoadFailed(String),
}

impl ModelError {
    pub open spec fn text(self) -> Seq<char> {
        match self {
            ModelError::NotFound(m) => m@,
            ModelError::LoadFailed(m) => m@,
        }
    }

    /// The error in words.
    pub fn message(&self) -> (r: &str)
        ensures
            r@ == self.text(),
    {
        match self {
            ModelError::NotFound(m) => m.as_str(),
            ModelError::LoadFailed(m) => m.as_str(),
        }
    }
}

/// Everything that is not explicitly a lookup miss is a load failure.
impl From<String> for ModelError {
    fn from(m: String) -> (r: Self) {
        ModelError::LoadFailed(m)
    }
}

impl vstd::std_specs::convert::FromSpecImpl<String> for ModelError {
    open spec fn obeys_from_spec() -> bool {
        true
    }

    open spec fn from_spec(m: String) -> Self {
        ModelError::LoadFailed(m)
    }
}

/// A name with its tag joined on by a dash.
pub open spec fn normalized(name: Seq<char>) -> Seq<char> {
    name.map_values(
        |c: char|
            if c == ':' {
                '-'
            } else {
                c
            },
    )
}

/// `qwen3:14b` is stored as `qwen3-14b`.
pub fn normalize_model_name(name: &str) -> (r: String)
    ensures
        r@ == normalized(name@),
{
    let c: Vec<char> = text::to_chars(name);
    let mut r: Vec<char> = Vec::new();
    let mut i: usize = 0;
    while i < c.len()
        invariant
            i <= c@.len(),
            r@ == normalized(c@).take(i as int),
        decreases c.len() - i,
    {
        r.push(
            if c[i] == ':' {
                '-'
            } else {
                c[i]
            },
        );
        assert(r@ =~= normalized(c@).take(i + 1));
        i = i + 1;
    }
    assert(r@ =~= normalized(c@));
    text::from_chars(&r)
}

/// Normalizing twice changes nothing more.
pub proof fn law_normalizing_is_idempotent(name: Seq<char>)
    ensures
        normalized(normalized(name)) == normalized(name),
{
    assert(normalized(normalized(name)) =~= normalized(name));
}

pub open spec fn is_separator(c: char) -> bool {
    c == '/' || c == '\\'
}

/// What follows the last separator.
pub open spec fn last_component(s: Seq<char>) -> Seq<char>
    decreases s.len(),
{
    if s.len() == 0 || is_separator(s.last()) {
        Seq::empty()
    } else {
        last_component(s.drop_last()).push(s.last())
    }
}

/// `s` without a `.gguf` at its end, in whatever case.
pub open spec fn without_gguf(s: Seq<char>) -> Seq<char> {
    if s.len() >= 5 && text::lowered(s.skip(s.len() - 5)) == ".gguf"@ {
        s.take(s.len() - 5)
    } else {
        s
    }
}

/// What tells one model from another: the last path component without
/// `.gguf`, whatever the case of its letters.
pub open spec fn identity(name: Seq<char>) -> Seq<char> {
    text::lowered(without_gguf(last_component(name)))
}

proof fn lemma_last_component(s: Seq<char>, i: int)
    requires
        0 <= i <= s.len(),
        i == 0 || is_separator(s[i - 1]),
        forall|j: int| i <= j < s.len() ==> !is_separator(#[trigger] s[j]),
    ensures
        last_component(s) == s.skip(i),
    decreases s.len(),
{
    if i == s.len() {
        if s.len() > 0 {
            assert(is_separator(s.last()));
        }
        assert(s.skip(i) =~= Seq::empty());
    } else {
        assert(!is_separator(s[s.len() - 1]));
        let d = s.drop_last();
        assert forall|j: int| i <= j < d.len() implies !is_separator(#[trigger] d[j]) by {
            assert(!is_separator(s[j]));
        }
        lemma_last_component(d, i);
        assert(d.skip(i).push(s.last()) =~= s.skip(i));
    }
}

/// The key by which "is this model already loaded?" is answered: the last path
/// component, a `.gguf` at its end left out, in lower case. A dot inside a name
/// is part of the name: `qwen3.6-27b` and `qwen3.5-27b` are two models.
pub fn model_identity_key(name: &str) -> (r: String)
    ensures
        r@ == identity(name@),
{
    let c: Vec<char> = text::to_chars(name);
    let mut from: usize = c.len();
    while from > 0 && c[from - 1] != '/' && c[from - 1] != '\\'
        invariant
            from <= c@.len(),
            forall|j: int| from <= j < c@.len() ==> !is_separator(#[trigger] c@[j]),
        decreases from,
    {
        from = from - 1;
    }
    proof {
        lemma_last_component(c@, from as int);
    }
    let last: &[char] = slice_subrange(&c, from, c.len());
    assert(last@ =~= c@.skip(from as int));
    let mut to: usize = last.len();
    if to >= 5 {
        let tail: &[char] = slice_subrange(last, to - 5, to);
        assert(tail@ =~= last@.skip(last@.len() - 5));
        let low: Vec<char> = text::lower_chars(tail);
        let ext: Vec<char> = text::to_chars(".gguf");
        if text::same_chars(&low, &ext) {
            to = to - 5;
        }
    }
    let base: &[char] = slice_subrange(last, 0, to);
    assert(base@ =~= without_gguf(last@));
    text::from_chars(&text::lower_chars(base))
}

/// A path and the bare name of the file it leads to are one model, whatever
/// the extension's case.
pub proof fn law_a_path_names_its_file(dir: Seq<char>, name: Seq<char>, extension: Seq<char>)
    requires
        forall|j: int| 0 <= j < name.len() ==> !is_separator(#[trigger] name[j]),
        text::lowered(extension) == ".gguf"@,
        without_gguf(name) == name,
    ensures
        identity(dir.push('/') + name + extension) == identity(name),
        identity(dir.push('/') + name) == identity(name),
{
    reveal_strlit(".gguf");
    assert(text::lowered(extension).len() == 5);
    assert forall|j: int| 0 <= j < extension.len() implies !is_separator(#[trigger] extension[j]) by {
        assert(text::lowered(extension)[j] == text::lower(extension[j]));
    }
    let full = dir.push('/') + name + extension;
    lemma_last_component(full, dir.len() as int + 1);
    assert(full.skip(dir.len() as int + 1) =~= name + extension);
    assert((name + extension).skip(name.len() as int) =~= extension);
    assert((name + extension).take(name.len() as int) =~= name);
    lemma_last_component(name, 0);
    assert(name.skip(0) =~= name);
    let bare = dir.push('/') + name;
    lemma_last_component(bare, dir.len() as int + 1);
    assert(bare.skip(dir.len() as int + 1) =~= name);
}

/// Two names in lower case, neither a path nor a file name, are one model only
/// if they are the same text: no dot in them cuts anything off.
pub proof fn law_bare_names_are_compared_whole(a: Seq<char>, b: Seq<char>)
    requires
        forall|j: int| 0 <= j < a.len() ==> !is_separator(#[trigger] a[j]),
        forall|j: int| 0 <= j < b.len() ==> !is_separator(#[trigger] b[j]),
        text::lowered(a) == a,
        text::lowered(b) == b,
        without_gguf(a) == a,
        without_gguf(b) == b,
    ensures
        identity(a) == identity(b) <==> a == b,
{
    lemma_last_component(a, 0);
    lemma_last_component(b, 0);
    assert(a.skip(0) =~= a);
    assert(b.skip(0) =~= b);
}

/// Whether the model in the slot is the one that a request names. The loaded
/// name may be a whole path and the requested one a short name or a tag.
pub open spec fn names_match(loaded: Seq<char>, requested: Seq<char>) -> bool {
    loaded == requested || identity(loaded) == identity(requested)
}

pub fn model_names_match(loaded: &str, normalized_request: &str) -> (r: bool)
    ensures
        r == names_match(loaded@, normalized_request@),
{
    if text::same_text(loaded, normalized_request) {
        return true;
    }
    let a: String = model_identity_key(loaded);
    let b: String = model_identity_key(normalized_request);
    text::same_text(a.as_str(), b.as_str())
}

/// Whether a request's model has to be loaded: it names one, and the slot does
/// not hold it.
pub open spec fn swap_needed(loaded: Option<Seq<char>>, requested: Option<Seq<char>>) -> bool {
    match (requested, loaded) {
        (None, _) => false,
        (Some(_), None) => true,
        (Some(r), Some(l)) => !names_match(l, normalized(r)),
    }
}

pub fn needs_swap(loaded: Option<&str>, requested: Option<&str>) -> (r: bool)
    ensures
        r == swap_needed(opt_view(loaded), opt_view(requested)),
{
    match requested {
        None => false,
        Some(name) => match loaded {
            None => true,
            Some(l) => {
                let n: String = normalize_model_name(name);
                !model_names_match(l, n.as_str())
            },
        },
    }
}

/// Once a model is in the slot under its normalized name, asking for it again
/// loads nothing.
pub proof fn law_a_loaded_model_is_not_swapped(name: Seq<char>)
    ensures
        !swap_needed(Some(normalized(name)), Some(name)),
{
}

/// A place to look for a model's weights.
#[derive(Debug, PartialEq, Eq)]
pub enum Probe {
    /// A file at this path.
    File(String),
    /// A directory: the first `.gguf` file in it.
    Directory(String),
    /// The weights that the store holds under this name.
    Stored(String),
}

/// A place to look, over characters.
pub enum Place {
    File(Seq<char>),
    Directory(Seq<char>),
    Stored(Seq<char>),
}

impl Probe {
    pub open spec fn place(self) -> Place {
        match self {
            Probe::File(p) => Place::File(p@),
            Probe::Directory(p) => Place::Directory(p@),
            Probe::Stored(n) => Place::Stored(n@),
        }
    }
}

pub open spec fn places(v: Seq<Probe>) -> Seq<Place> {
    v.map_values(|p: Probe| p.place())
}

/// A plain file name: it leads to nothing but a file in its directory.
pub open spec fn plain(name: Seq<char>) -> bool {
    &&& name.len() > 0
    &&& name != "."@
    &&& name != ".."@
    &&& forall|i: int| 0 <= i < name.len() ==> !is_separator(#[trigger] name[i])
}

pub fn is_safe_filename(name: &str) -> (r: bool)
    ensures
        r == plain(name@),
{
    let c: Vec<char> = text::to_chars(name);
    let mut i: usize = 0;
    while i < c.len()
        invariant
            i <= c@.len(),
            c@ == name@,
            forall|j: int| 0 <= j < i ==> !is_separator(#[trigger] c@[j]),
        decreases c.len() - i,
    {
        if c[i] == '/' || c[i] == '\\' {
            assert(is_separator(name@[i as int]));
            return false;
        }
        i = i + 1;
    }
    c.len() > 0 && !text::same_text(name, ".") && !text::same_text(name, "..")
}

/// The directories that models are mounted at.
pub open spec fn mounted(name: Seq<char>) -> Seq<Place> {
    seq![
        Place::File("/models/"@ + name + ".gguf"@),
        Place::File("/data/models/"@ + name + ".gguf"@),
    ]
}

/// The path starts at the root.
pub open spec fn rooted(path: Seq<char>) -> bool {
    path.len() > 0 && path[0] == '/'
}

/// A piece of a path that leads anywhere: not nothing, and not the directory
/// that it stands in.
pub open spec fn leads_on(piece: Seq<char>) -> bool {
    piece.len() > 0 && piece != "."@
}

/// What a path names on its way, in order.
pub open spec fn steps(path: Seq<char>) -> Seq<Seq<char>> {
    text::pieces(path, '/').filter(|p: Seq<char>| leads_on(p))
}

/// The paths have the same components. Repeated and trailing separators do not
/// count, nor does a `.`, unless the path begins with it.
pub open spec fn same_components(a: Seq<char>, b: Seq<char>) -> bool {
    &&& rooted(a) == rooted(b)
    &&& (text::pieces(a, '/')[0] == "."@) == (text::pieces(b, '/')[0] == "."@)
    &&& steps(a) == steps(b)
}

fn path_steps(pieces: &[Vec<char>]) -> (r: Vec<Vec<char>>)
    ensures
        text::rows(r@) == text::rows(pieces@).filter(|p: Seq<char>| leads_on(p)),
{
    let mut r: Vec<Vec<char>> = Vec::new();
    let dot: Vec<char> = text::to_chars(".");
    let mut i: usize = 0;
    let ghost all = text::rows(pieces@);
    let ghost on = |p: Seq<char>| leads_on(p);
    proof {
        assert(all.take(0) =~= Seq::empty());
        reveal(Seq::filter);
        assert(text::rows(r@) =~= all.take(0).filter(on));
    }
    while i < pieces.len()
        invariant
            i <= pieces@.len(),
            dot@ == "."@,
            all == text::rows(pieces@),
            on == (|p: Seq<char>| leads_on(p)),
            text::rows(r@) == all.take(i as int).filter(on),
        decreases pieces.len() - i,
    {
        let ghost before = text::rows(r@);
        proof {
            let t = all.take(i + 1);
            assert(t.drop_last() =~= all.take(i as int));
            assert(t.last() == pieces@[i as int]@);
            reveal(Seq::filter);
        }
        if pieces[i].len() > 0 && !text::same_chars(&pieces[i], &dot) {
            r.push(text::copy_chars(&pieces[i]));
            assert(text::rows(r@) =~= before.push(pieces@[i as int]@));
        }
        i = i + 1;
    }
    assert(all.take(i as int) =~= all);
    r
}

fn same_rows(a: &[Vec<char>], b: &[Vec<char>]) -> (r: bool)
    ensures
        r == (text::rows(a@) == text::rows(b@)),
{
    if a.len() != b.len() {
        assert(text::rows(a@).len() != text::rows(b@).len());
        return false;
    }
    let mut i: usize = 0;
    while i < a.len()
        invariant
            i <= a@.len() == b@.len(),
            forall|j: int| 0 <= j < i ==> (#[trigger] a@[j])@ == b@[j]@,
        decreases a.len() - i,
    {
        if !text::same_chars(&a[i], &b[i]) {
            assert(text::rows(a@)[i as int] != text::rows(b@)[i as int]);
            return false;
        }
        i = i + 1;
    }
    assert(text::rows(a@) =~= text::rows(b@));
    true
}

/// Whether two paths, written with `/`, have the same components.
pub fn same_path(a: &str, b: &str) -> (r: bool)
    ensures
        r == same_components(a@, b@),
{
    let c: Vec<char> = text::to_chars(a);
    let d: Vec<char> = text::to_chars(b);
    let p: Vec<Vec<char>> = text::split(&c, '/');
    let q: Vec<Vec<char>> = text::split(&d, '/');
    let dot: Vec<char> = text::to_chars(".");
    assert(text::rows(p@)[0] == p@[0]@ && text::rows(q@)[0] == q@[0]@);
    let rooted_alike: bool = (c.len() > 0 && c[0] == '/') == (d.len() > 0 && d[0] == '/');
    let begun_alike: bool = text::same_chars(&p[0], &dot) == text::same_chars(&q[0], &dot);
    rooted_alike && begun_alike && same_rows(&path_steps(&p), &path_steps(&q))
}

/// The launch model is asked for, by the name it is listed under or by its
/// literal path, component by component.
pub open spec fn is_launch(name: Seq<char>, launch: (Seq<char>, Seq<char>)) -> bool {
    name == launch.0 || same_components(name, launch.1)
}

/// Where a model's weights are looked for, in order: the path this process was
/// launched with; the name as a path, only where paths are allowed; the mount
/// points, under a plain file name; the store, under the name as it is and as
/// it is normalized.
pub open spec fn search(
    name: Seq<char>,
    launch: Option<(Seq<char>, Seq<char>)>,
    allow_paths: bool,
) -> Seq<Place> {
    (match launch {
        Some(l) => if is_launch(name, l) {
            seq![Place::File(l.1)]
        } else {
            Seq::empty()
        },
        None => Seq::empty(),
    }) + (if allow_paths {
        seq![Place::File(name), Place::Directory(name), Place::File(name + ".gguf"@)]
    } else {
        Seq::empty()
    }) + (if plain(name + ".gguf"@) {
        mounted(name)
    } else {
        Seq::empty()
    }) + seq![Place::Stored(name)] + (if normalized(name) != name {
        seq![Place::Stored(normalized(name))]
    } else {
        Seq::empty()
    })
}

fn joined(a: &str, b: &str, c: &str) -> (r: String)
    ensures
        r@ == a@ + b@ + c@,
{
    let mut r: String = text::copy_text(a);
    r.append(b);
    r.append(c);
    r
}

/// The places where a model's weights are looked for; the first that holds
/// them wins.
pub fn resolve_plan(name: &str, launch: Option<(&str, &str)>, allow_model_paths: bool) -> (r: Vec<
    Probe,
>)
    ensures
        places(r@) == search(name@, opt_pair_view(launch), allow_model_paths),
{
    let mut r: Vec<Probe> = Vec::new();
    match launch {
        Some((launch_name, launch_path)) => {
            if text::same_text(name, launch_name) || same_path(name, launch_path) {
                r.push(Probe::File(text::copy_text(launch_path)));
            }
        },
        None => {},
    }
    let with_ext: String = joined(name, ".gguf", "");
    proof {
        reveal_strlit("");
        assert(with_ext@ =~= name@ + ".gguf"@);
    }
    if allow_model_paths {
        r.push(Probe::File(text::copy_text(name)));
        r.push(Probe::Directory(text::copy_text(name)));
        r.push(Probe::File(text::copy_text(with_ext.as_str())));
    }
    if is_safe_filename(with_ext.as_str()) {
        r.push(Probe::File(joined("/models/", name, ".gguf")));
        r.push(Probe::File(joined("/data/models/", name, ".gguf")));
    }
    r.push(Probe::Stored(text::copy_text(name)));
    let n: String = normalize_model_name(name);
    if !text::same_text(n.as_str(), name) {
        r.push(Probe::Stored(n));
    }
    proof {
        assert(places(r@) =~= search(name@, opt_pair_view(launch), allow_model_paths));
    }
    r
}

/// A request that is not allowed to name paths, and does not name the launch
/// model, leads to no file outside the mount points: each file looked for is
/// directly in one of them.
pub proof fn law_names_do_not_lead_out_of_the_mounts(
    name: Seq<char>,
    launch: Option<(Seq<char>, Seq<char>)>,
    i: int,
)
    requires
        launch matches Some(l) ==> !is_launch(name, l),
        0 <= i < search(name, launch, false).len(),
    ensures
        match search(name, launch, false)[i] {
            Place::File(p) => plain(name + ".gguf"@) && (p == "/models/"@ + (name + ".gguf"@) || p
                == "/data/models/"@ + (name + ".gguf"@)),
            Place::Directory(_) => false,
            Place::Stored(n) => n == name || n == normalized(name),
        },
{
    assert("/models/"@ + (name + ".gguf"@) =~= "/models/"@ + name + ".gguf"@);
    assert("/data/models/"@ + (name + ".gguf"@) =~= "/data/models/"@ + name + ".gguf"@);
}

/// The launch model is always looked for first, whether or not paths are
/// allowed: what the API lists, it accepts.
pub proof fn law_the_launch_model_is_found(
    name: Seq<char>,
    launch: (Seq<char>, Seq<char>),
    allow_paths: bool,
)
    requires
        is_launch(name, launch),
    ensures
        search(name, Some(launch), allow_paths).len() > 0,
        search(name, Some(launch), allow_paths)[0] == Place::File(launch.1),
{
}

pub open spec fn not_found_text(name: Seq<char>) -> Seq<char> {
    "Model '"@ + name
        + "' not found. Accepted formats:\n  - GGUF file path: /models/model.gguf\n  - Directory with GGUF: /models/mymodel/\n  - Registered name: eullm import-ollama "@
        + name
}

/// What a search ends in: the path that was found, or the refusal that names
/// the model.
pub fn resolved(name: &str, found: Option<String>) -> (r: Result<String, ModelError>)
    ensures
        match found {
            Some(p) => r == Ok::<String, ModelError>(p),
            None => r matches Err(ModelError::NotFound(m)) && m@ == not_found_text(name@),
        },
{
    match found {
        Some(p) => Ok(p),
        None => {
            let mut m: String = joined(
                "Model '",
                name,
                "' not found. Accepted formats:\n  - GGUF file path: /models/model.gguf\n  - Directory with GGUF: /models/mymodel/\n  - Registered name: eullm import-ollama ",
            );
            m.append(name);
            Err(ModelError::NotFound(m))
        },
    }
}

/// A tag is joined on by a dash, and nothing else of a name changes.
pub proof fn law_a_tag_is_joined_by_a_dash(name: Seq<char>, i: int)
    requires
        0 <= i < name.len(),
    ensures
        normalized(name).len() == name.len(),
        name[i] == ':' ==> normalized(name)[i] == '-',
        name[i] != ':' ==> normalized(name)[i] == name[i],
{
}

/// A request loads its model unless the slot holds it, at whatever path: names
/// in lower case, neither paths nor file names, are compared whole.
pub proof fn law_another_model_is_loaded(dir: Seq<char>, held: Seq<char>, asked: Seq<char>)
    requires
        forall|j: int| 0 <= j < held.len() ==> !is_separator(#[trigger] held[j]),
        forall|j: int| 0 <= j < asked.len() ==> !is_separator(#[trigger] asked[j]),
        forall|j: int| 0 <= j < asked.len() ==> #[trigger] asked[j] != ':',
        text::lowered(held) == held,
        text::lowered(asked) == asked,
        without_gguf(held) == held,
        without_gguf(asked) == asked,
    ensures
        swap_needed(Some(dir.push('/') + held + ".gguf"@), Some(asked)) <==> held != asked,
        swap_needed(Some(held), Some(asked)) <==> held != asked,
        swap_needed(None, Some(asked)),
        !swap_needed(Some(held), None),
        !swap_needed(None, None),
{
    let ext = ".gguf"@;
    reveal_strlit(".gguf");
    assert(text::lowered(ext) =~= ext);
    assert(normalized(asked) =~= asked);
    law_a_path_names_its_file(dir, held, ext);
    law_bare_names_are_compared_whole(held, asked);
    let path = dir.push('/') + held + ext;
    if path == asked {
        assert(is_separator(path[dir.len() as int]));
        assert(asked[dir.len() as int] == path[dir.len() as int]);
    }
}

/// A file name is plain where nothing in it leads anywhere: it is not empty, not
/// this directory, not the one above, and holds no separator.
pub proof fn law_a_plain_name_stays_in_its_directory(name: Seq<char>)
    ensures
        plain(name) <==> name.len() > 0 && name != seq!['.'] && name != seq!['.', '.'] && forall|i: int|

            0 <= i < name.len() ==> #[trigger] name[i] != '/' && name[i] != '\\',
{
    reveal_strlit(".");
    reveal_strlit("..");
    assert("."@ =~= seq!['.']);
    assert(".."@ =~= seq!['.', '.']);
    if plain(name) {
        assert forall|i: int| 0 <= i < name.len() implies #[trigger] name[i] != '/' && name[i]
            != '\\' by {
            assert(!is_separator(name[i]));
        }
    }
}

/// Where a model that was not launched with is looked for: as a path where paths
/// are allowed, the file before the directory and before the file with its
/// extension; then in the mount points under a plain name; and at last in the
/// store, as it is named and as it is normalized.
pub proof fn law_a_model_is_looked_for_in_order(name: Seq<char>, allow_paths: bool)
    ensures
        ({
            let s = search(name, None, allow_paths);
            let file = name + ".gguf"@;
            let p: int = if allow_paths {
                3
            } else {
                0
            };
            let m: int = if plain(file) {
                2
            } else {
                0
            };
            let n: int = if normalized(name) == name {
                1
            } else {
                2
            };
            &&& s.len() == p + m + n
            &&& allow_paths ==> s[0] == Place::File(name) && s[1] == Place::Directory(name) && s[2]
                == Place::File(file)
            &&& plain(file) ==> s[p] == Place::File("/models/"@ + file) && s[p + 1] == Place::File(
                "/data/models/"@ + file,
            )
            &&& s[p + m] == Place::Stored(name)
            &&& s.last() == Place::Stored(normalized(name))
        }),
{
    assert("/models/"@ + (name + ".gguf"@) =~= "/models/"@ + name + ".gguf"@);
    assert("/data/models/"@ + (name + ".gguf"@) =~= "/data/models/"@ + name + ".gguf"@);
}

proof fn lemma_pieces_of_two(a: Seq<char>, b: Seq<char>)
    ensures
        text::pieces(a + seq!['/'] + b, '/') == text::pieces(a, '/') + text::pieces(b, '/'),
        text::pieces(a, '/').len() > 0,
    decreases a.len(),
{
    text::lemma_index_of(a, '/');
    let i = text::index_of(a, '/');
    let s = a + seq!['/'] + b;
    if i < a.len() {
        let front = a.take(i);
        let rest = a.skip(i + 1);
        assert(a =~= front + seq!['/'] + rest);
        text::law_a_piece_ends_at_its_separator(front, '/', rest);
        text::law_a_piece_ends_at_its_separator(front, '/', rest + seq!['/'] + b);
        lemma_pieces_of_two(rest, b);
        assert(s =~= front + seq!['/'] + (rest + seq!['/'] + b));
        assert(text::pieces(s, '/') =~= text::pieces(a, '/') + text::pieces(b, '/'));
    } else {
        text::law_a_piece_ends_at_its_separator(a, '/', b);
    }
}

proof fn lemma_steps_of_two(a: Seq<char>, b: Seq<char>)
    ensures
        steps(a + seq!['/'] + b) == steps(a) + steps(b),
        text::pieces(a + seq!['/'] + b, '/')[0] == text::pieces(a, '/')[0],
{
    lemma_pieces_of_two(a, b);
    Seq::filter_distributes_over_add(
        text::pieces(a, '/'),
        text::pieces(b, '/'),
        |p: Seq<char>| leads_on(p),
    );
}

/// One separator counts as much as two.
pub proof fn law_repeated_separators_do_not_count(a: Seq<char>, b: Seq<char>)
    ensures
        same_components(a + seq!['/'] + (seq!['/'] + b), a + seq!['/'] + b),
        a.len() > 0 ==> same_components(a + seq!['/'], a),
{
    let none = Seq::<char>::empty();
    let on = |p: Seq<char>| leads_on(p);
    lemma_steps_of_two(a, b);
    lemma_steps_of_two(a, seq!['/'] + b);
    lemma_steps_of_two(none, b);
    assert(none + seq!['/'] + b =~= seq!['/'] + b);
    text::law_a_piece_ends_at_its_separator(none, '/', none);
    reveal(Seq::filter);
    assert(seq![none].drop_last() =~= Seq::<Seq<char>>::empty());
    assert(seq![none].last() == none && !leads_on(none));
    assert(Seq::<Seq<char>>::empty().filter(on) =~= Seq::<Seq<char>>::empty());
    assert(seq![none].filter(on) =~= Seq::<Seq<char>>::empty());
    assert(steps(none) =~= Seq::empty());
    assert(steps(none) + steps(b) =~= steps(b));
    lemma_steps_of_two(a, none);
    assert(a + seq!['/'] + none =~= a + seq!['/']);
    assert(steps(a) + steps(none) =~= steps(a));
}

/// Two files of one directory have the same path only if they have the same
/// name, and a path that starts at the root is not one that does not.
pub proof fn law_paths_differ_by_their_components(dir: Seq<char>, a: Seq<char>, b: Seq<char>)
    requires
        forall|i: int| 0 <= i < a.len() ==> #[trigger] a[i] != '/',
        forall|i: int| 0 <= i < b.len() ==> #[trigger] b[i] != '/',
        a.len() > 0 && a != seq!['.'],
        b.len() > 0 && b != seq!['.'],
    ensures
        same_components(dir + seq!['/'] + a, dir + seq!['/'] + b) <==> a == b,
        !same_components(seq!['/'] + a, a),
{
    reveal_strlit(".");
    assert("."@ =~= seq!['.']);
    let on = |p: Seq<char>| leads_on(p);
    text::law_a_piece_ends_at_its_separator(a, '/', Seq::empty());
    text::law_a_piece_ends_at_its_separator(b, '/', Seq::empty());
    reveal(Seq::filter);
    assert(seq![a].drop_last() =~= Seq::<Seq<char>>::empty());
    assert(seq![b].drop_last() =~= Seq::<Seq<char>>::empty());
    assert(leads_on(a) && leads_on(b));
    assert(seq![a].filter(on) =~= seq![a]);
    assert(seq![b].filter(on) =~= seq![b]);
    lemma_steps_of_two(dir, a);
    lemma_steps_of_two(dir, b);
    let (x, y) = (steps(dir) + seq![a], steps(dir) + seq![b]);
    assert(x.last() == a && y.last() == b);
    if a == b {
        assert(dir + seq!['/'] + a =~= dir + seq!['/'] + b);
    }
    let rooted_one = seq!['/'] + a;
    assert(rooted_one[0] == '/');
}

/// A refusal says which model was not found.
pub proof fn law_a_refusal_names_the_model(name: Seq<char>)
    ensures
        exists|rest: Seq<char>| #[trigger]
            ("Model '"@ + name + "' not found"@ + rest) == not_found_text(name),
{
    let tail =
        "' not found. Accepted formats:\n  - GGUF file path: /models/model.gguf\n  - Directory with GGUF: /models/mymodel/\n  - Registered name: eullm import-ollama "@;
    reveal_strlit(
        "' not found. Accepted formats:\n  - GGUF file path: /models/model.gguf\n  - Directory with GGUF: /models/mymodel/\n  - Registered name: eullm import-ollama ",
    );
    reveal_strlit("' not found");
    let rest = tail.skip(11) + name;
    assert("' not found"@ =~= tail.take(11));
    assert("Model '"@ + name + "' not found"@ + rest =~= not_found_text(name));
}

/// The case of a name's letters tells no models apart, nor does the one of its
/// extension.
pub proof fn law_case_tells_no_models_apart(a: Seq<char>, b: Seq<char>)
    requires
        text::lowered(a) == text::lowered(b),
    ensures
        identity(a) == identity(b),
        names_match(a, b),
{
    lemma_component_lowered(a);
    lemma_component_lowered(b);
    lemma_extension_lowered(last_component(a));
    lemma_extension_lowered(last_component(b));
}

proof fn lemma_component_lowered(s: Seq<char>)
    ensures
        text::lowered(last_component(s)) == last_component(text::lowered(s)),
    decreases s.len(),
{
    let l = text::lowered(s);
    if s.len() > 0 {
        assert(l.last() == text::lower(s.last()));
        assert(is_separator(l.last()) == is_separator(s.last()));
        assert(l.drop_last() =~= text::lowered(s.drop_last()));
        lemma_component_lowered(s.drop_last());
    }
    assert(text::lowered(last_component(s)) =~= last_component(l));
}

proof fn lemma_extension_lowered(s: Seq<char>)
    ensures
        text::lowered(without_gguf(s)) == without_gguf(text::lowered(s)),
{
    let l = text::lowered(s);
    if s.len() >= 5 {
        assert(text::lowered(l.skip(l.len() - 5)) =~= text::lowered(s.skip(s.len() - 5)));
        assert(text::lowered(s.take(s.len() - 5)) =~= l.take(l.len() - 5));
    }
}

} // verus!
