//! JSON values as the API reads and writes them.
use crate::inference::Single;
use crate::text;
use vstd::prelude::*;
use vstd::slice::slice_subrange;

verus! {

/// A number: the text that spells it, and the single-precision value next to
/// it where the number came in with a request.
#[derive(Debug, Clone, PartialEq)]
pub struct Number {
    pub text: String,
    pub single: Option<Single>,
}

/// A JSON value. An object lists its members in the order they were added.
#[derive(Debug, PartialEq)]
pub enum Json {
    Null,
    Bool(bool),
    Number(Number),
    Text(String),
    Array(Vec<Json>),
    Object(Vec<(String, Json)>),
}

/// What a JSON value says, over characters and sequences.
pub enum Tree {
    Null,
    Bool(bool),
    Number(Seq<char>, Option<Single>),
    Text(Seq<char>),
    Array(Seq<Tree>),
    Object(Seq<(Seq<char>, Tree)>),
}

/// What `j` says.
pub open spec fn tree(j: Json) -> Tree
    decreases j,
{
    match j {
        Json::Null => Tree::Null,
        Json::Bool(b) => Tree::Bool(b),
        Json::Number(n) => Tree::Number(n.text@, n.single),
        Json::Text(s) => Tree::Text(s@),
        Json::Array(v) => Tree::Array(
            Seq::new(
                v@.len(),
                |i: int|
                    if 0 <= i < v@.len() {
                        tree(v@[i])
                    } else {
                        Tree::Null
                    },
            ),
        ),
        Json::Object(v) => Tree::Object(
            Seq::new(
                v@.len(),
                |i: int|
                    if 0 <= i < v@.len() {
                        (v@[i].0@, tree(v@[i].1))
                    } else {
                        (Seq::empty(), Tree::Null)
                    },
            ),
        ),
    }
}

/// What a list of members says.
pub open spec fn members(v: Seq<(String, Json)>) -> Seq<(Seq<char>, Tree)> {
    Seq::new(v.len(), |i: int| (v[i].0@, tree(v[i].1)))
}

/// What a list of values says.
pub open spec fn trees(v: Seq<Json>) -> Seq<Tree> {
    Seq::new(v.len(), |i: int| tree(v[i]))
}

pub proof fn lemma_tree(j: Json)
    ensures
        j matches Json::Object(v) ==> tree(j) == Tree::Object(members(v@)),
        j matches Json::Array(v) ==> tree(j) == Tree::Array(trees(v@)),
{
    match j {
        Json::Object(v) => {
            assert(tree(j)->Object_0 =~= members(v@));
        },
        Json::Array(v) => {
            assert(tree(j)->Array_0 =~= trees(v@));
        },
        _ => {},
    }
}

/// The first member named `key`.
pub open spec fn member(m: Seq<(Seq<char>, Tree)>, key: Seq<char>) -> Option<Tree>
    decreases m.len(),
{
    if m.len() == 0 {
        None
    } else if m[0].0 == key {
        Some(m[0].1)
    } else {
        member(m.skip(1), key)
    }
}

/// The field `key` of an object; other values have no fields.
pub open spec fn field(t: Tree, key: Seq<char>) -> Option<Tree> {
    match t {
        Tree::Object(m) => member(m, key),
        _ => None,
    }
}

pub open spec fn text_of(t: Option<Tree>) -> Option<Seq<char>> {
    match t {
        Some(Tree::Text(s)) => Some(s),
        _ => None,
    }
}

pub open spec fn bool_of(t: Option<Tree>) -> Option<bool> {
    match t {
        Some(Tree::Bool(b)) => Some(b),
        _ => None,
    }
}

pub open spec fn array_of(t: Option<Tree>) -> Option<Seq<Tree>> {
    match t {
        Some(Tree::Array(v)) => Some(v),
        _ => None,
    }
}

/// The non-negative integer that a number spells: digits alone, within 64 bits.
pub open spec fn unsigned_of(t: Option<Tree>) -> Option<nat> {
    match t {
        Some(Tree::Number(s, _)) => if s.len() > 0 && s[0] != '+' {
            text::unsigned_value(s, u64::MAX as nat)
        } else {
            None
        },
        _ => None,
    }
}

/// The signed 64-bit integer that a number spells.
pub open spec fn signed_of(t: Option<Tree>) -> Option<int> {
    match t {
        Some(Tree::Number(s, _)) => if s.len() > 1 && s[0] == '-' && s[1] != '+' {
            match text::unsigned_value(s.skip(1), 0x8000_0000_0000_0000) {
                Some(n) => Some(-(n as int)),
                None => None,
            }
        } else if s.len() > 0 && s[0] != '+' {
            match text::unsigned_value(s, i64::MAX as nat) {
                Some(n) => Some(n as int),
                None => None,
            }
        } else {
            None
        },
        _ => None,
    }
}

pub open spec fn single_of(t: Option<Tree>) -> Option<Single> {
    match t {
        Some(Tree::Number(_, s)) => s,
        _ => None,
    }
}

/// What an optional value says.
pub open spec fn opt_tree(j: Option<&Json>) -> Option<Tree> {
    match j {
        Some(v) => Some(tree(*v)),
        None => None,
    }
}

impl Json {
    /// The member named `key`, where this is an object that has one.
    pub fn get(&self, key: &str) -> (r: Option<&Json>)
        ensures
            opt_tree(r) == field(tree(*self), key@),
    {
        proof {
            lemma_tree(*self);
        }
        match self {
            Json::Object(v) => {
                let mut i: usize = 0;
                proof {
                    assert(members(v@).skip(0) =~= members(v@));
                }
                while i < v.len()
                    invariant
                        i <= v@.len(),
                        *self == Json::Object(*v),
                        tree(*self) == Tree::Object(members(v@)),
                        member(members(v@), key@) == member(members(v@).skip(i as int), key@),
                    decreases v.len() - i,
                {
                    if text::same_text(v[i].0.as_str(), key) {
                        return Some(&v[i].1);
                    }
                    proof {
                        assert(members(v@).skip(i as int).skip(1) =~= members(v@).skip(i + 1));
                    }
                    i = i + 1;
                }
                None
            },
            _ => None,
        }
    }

    pub fn as_text(&self) -> (r: Option<&str>)
        ensures
            match r {
                Some(s) => text_of(Some(tree(*self))) == Some(s@),
                None => text_of(Some(tree(*self))) is None,
            },
    {
        match self {
            Json::Text(s) => Some(s.as_str()),
            _ => None,
        }
    }

    pub fn as_bool(&self) -> (r: Option<bool>)
        ensures
            r == bool_of(Some(tree(*self))),
    {
        match self {
            Json::Bool(b) => Some(*b),
            _ => None,
        }
    }

    pub fn as_array(&self) -> (r: Option<&Vec<Json>>)
        ensures
            match r {
                Some(v) => array_of(Some(tree(*self))) == Some(trees(v@)),
                None => array_of(Some(tree(*self))) is None,
            },
    {
        proof {
            lemma_tree(*self);
        }
        match self {
            Json::Array(v) => Some(v),
            _ => None,
        }
    }

    pub fn as_u64(&self) -> (r: Option<u64>)
        ensures
            match r {
                Some(n) => unsigned_of(Some(tree(*self))) == Some(n as nat),
                None => unsigned_of(Some(tree(*self))) is None,
            },
    {
        match self {
            Json::Number(n) => {
                let c: Vec<char> = text::to_chars(n.text.as_str());
                if c.len() > 0 && c[0] != '+' {
                    text::parse_unsigned(&c, u64::MAX)
                } else {
                    None
                }
            },
            _ => None,
        }
    }

    pub fn as_i64(&self) -> (r: Option<i64>)
        ensures
            match r {
                Some(n) => signed_of(Some(tree(*self))) == Some(n as int),
                None => signed_of(Some(tree(*self))) is None,
            },
    {
        match self {
            Json::Number(n) => {
                let c: Vec<char> = text::to_chars(n.text.as_str());
                if c.len() > 1 && c[0] == '-' && c[1] != '+' {
                    let tail: &[char] = slice_subrange(&c, 1, c.len());
                    assert(tail@ =~= c@.skip(1));
                    match text::parse_unsigned(tail, 0x8000_0000_0000_0000) {
                        Some(m) => Some((-(m as i128)) as i64),
                        None => None,
                    }
                } else if c.len() > 0 && c[0] != '+' {
                    match text::parse_unsigned(&c, i64::MAX as u64) {
                        Some(m) => Some(m as i64),
                        None => None,
                    }
                } else {
                    None
                }
            },
            _ => None,
        }
    }

    pub fn as_single(&self) -> (r: Option<Single>)
        ensures
            r == single_of(Some(tree(*self))),
    {
        match self {
            Json::Number(n) => n.single,
            _ => None,
        }
    }

    /// A text value.
    pub fn text(s: &str) -> (r: Json)
        ensures
            tree(r) == Tree::Text(s@),
    {
        Json::Text(text::copy_text(s))
    }

    /// A whole number.
    pub fn count(n: u64) -> (r: Json)
        ensures
            tree(r) == counted(n as nat),
    {
        Json::Number(Number { text: text::decimal_text(n), single: None })
    }

    /// A whole number, negative or not.
    pub fn signed(n: i64) -> (r: Json)
        ensures
            tree(r) == Tree::Number(text::signed_decimal(n as int), None),
    {
        Json::Number(Number { text: text::signed_text(n), single: None })
    }

    /// An object of the given members.
    pub fn object(v: Vec<(String, Json)>) -> (r: Json)
        ensures
            tree(r) == Tree::Object(members(v@)),
    {
        let r = Json::Object(v);
        proof {
            lemma_tree(r);
        }
        r
    }

    /// An array of the given values.
    pub fn array(v: Vec<Json>) -> (r: Json)
        ensures
            tree(r) == Tree::Array(trees(v@)),
    {
        let r = Json::Array(v);
        proof {
            lemma_tree(r);
        }
        r
    }
}

/// A copy of a value.
pub fn copy_json(j: &Json) -> (r: Json)
    ensures
        tree(r) == tree(*j),
    decreases *j,
{
    proof {
        lemma_tree(*j);
    }
    match j {
        Json::Null => Json::Null,
        Json::Bool(b) => Json::Bool(*b),
        Json::Number(n) => Json::Number(
            Number { text: text::copy_text(n.text.as_str()), single: n.single },
        ),
        Json::Text(s) => Json::Text(text::copy_text(s.as_str())),
        Json::Array(v) => {
            let mut out: Vec<Json> = Vec::new();
            let mut i: usize = 0;
            assert(trees(out@) =~= trees(v@).take(0));
            while i < v.len()
                invariant
                    i <= v@.len(),
                    *j == Json::Array(*v),
                    trees(out@) == trees(v@).take(i as int),
                decreases v.len() - i,
            {
                let ghost before = trees(out@);
                assert(decreases_to!(*j => (*j)->Array_0@[i as int]));
                out.push(copy_json(&v[i]));
                assert(trees(out@) =~= before.push(trees(v@)[i as int]));
                assert(trees(v@).take(i + 1) =~= trees(v@).take(i as int).push(
                    trees(v@)[i as int],
                ));
                i = i + 1;
            }
            assert(trees(v@).take(i as int) =~= trees(v@));
            Json::array(out)
        },
        Json::Object(v) => {
            let mut out: Vec<(String, Json)> = Vec::new();
            let mut i: usize = 0;
            assert(members(out@) =~= members(v@).take(0));
            while i < v.len()
                invariant
                    i <= v@.len(),
                    *j == Json::Object(*v),
                    members(out@) == members(v@).take(i as int),
                decreases v.len() - i,
            {
                assert(decreases_to!(*j => (*j)->Object_0@[i as int].1));
                add_member(&mut out, v[i].0.as_str(), copy_json(&v[i].1));
                assert(members(v@).take(i + 1) =~= members(v@).take(i as int).push(
                    members(v@)[i as int],
                ));
                i = i + 1;
            }
            assert(members(v@).take(i as int) =~= members(v@));
            Json::object(out)
        },
    }
}

/// A whole number as a value.
pub open spec fn counted(n: nat) -> Tree {
    Tree::Number(text::decimal(n), None)
}

/// Adds a member to a list of members.
pub fn add_member(v: &mut Vec<(String, Json)>, key: &str, value: Json)
    ensures
        members(final(v)@) == members(old(v)@).push((key@, tree(value))),
{
    v.push((text::copy_text(key), value));
    assert(members(v@) =~= members(old(v)@).push((key@, tree(value))));
}

/// A field is the first member of its name: members of other names in front of
/// it, and whatever follows it, do not matter.
pub proof fn law_a_field_is_the_first_of_its_name(
    front: Seq<(Seq<char>, Tree)>,
    key: Seq<char>,
    v: Tree,
    rest: Seq<(Seq<char>, Tree)>,
)
    requires
        forall|i: int| 0 <= i < front.len() ==> (#[trigger] front[i]).0 != key,
    ensures
        field(Tree::Object(front.push((key, v)) + rest), key) == Some(v),
        field(Tree::Object(front), key) is None,
    decreases front.len(),
{
    let m = front.push((key, v)) + rest;
    if front.len() > 0 {
        let less = front.skip(1);
        assert forall|i: int| 0 <= i < less.len() implies (#[trigger] less[i]).0 != key by {
            assert(less[i] == front[i + 1]);
        }
        law_a_field_is_the_first_of_its_name(less, key, v, rest);
        assert(m.skip(1) =~= less.push((key, v)) + rest);
        assert(m[0] == front[0]);
    } else {
        assert(m[0] == (key, v));
    }
}

/// What is added behind counts only for its own name, and only where that name
/// is new.
pub proof fn law_an_added_member_is_found(
    m: Seq<(Seq<char>, Tree)>,
    key: Seq<char>,
    v: Tree,
    other: Seq<char>,
)
    ensures
        field(Tree::Object(m.push((key, v))), other) == match field(Tree::Object(m), other) {
            Some(x) => Some(x),
            None => if other == key {
                Some(v)
            } else {
                None
            },
        },
    decreases m.len(),
{
    let w = m.push((key, v));
    if m.len() > 0 {
        law_an_added_member_is_found(m.skip(1), key, v, other);
        assert(w.skip(1) =~= m.skip(1).push((key, v)));
        assert(w[0] == m[0]);
    } else {
        assert(w[0] == (key, v));
        assert(w.skip(1) =~= Seq::empty());
        assert(member(w.skip(1), other) is None);
        assert(member(m, other) is None);
    }
}

/// Only an object has fields.
pub proof fn law_only_objects_have_fields(t: Tree, key: Seq<char>)
    ensures
        !(t is Object) ==> field(t, key) is None,
{
}

/// A whole number is read as it is written, with or without a minus.
pub proof fn law_whole_numbers_are_read(n: nat, single: Option<Single>)
    ensures
        n <= u64::MAX ==> unsigned_of(Some(Tree::Number(text::decimal(n), single))) == Some(n),
        n <= i64::MAX ==> signed_of(Some(Tree::Number(text::decimal(n), single))) == Some(n as int),
        0 < n <= 0x8000_0000_0000_0000 ==> signed_of(
            Some(Tree::Number(seq!['-'] + text::decimal(n), single)),
        ) == Some(-(n as int)),
        unsigned_of(Some(Tree::Number(seq!['-'] + text::decimal(n), single))) is None,
        single_of(Some(Tree::Number(text::decimal(n), single))) == single,
{
    text::law_numbers_read_as_they_are_written(n);
    let d = text::decimal(n);
    assert(text::is_digit(d[0]));
    let s = seq!['-'] + d;
    assert(s.skip(1) =~= d);
    assert(s[0] == '-');
    assert(!text::is_digit(s[0]));
}

/// Values are read as what they are and as nothing else.
pub proof fn law_values_are_read_as_what_they_are(t: Tree)
    ensures
        text_of(Some(t)) is Some <==> t is Text,
        bool_of(Some(t)) is Some <==> t is Bool,
        array_of(Some(t)) is Some <==> t is Array,
        t matches Tree::Text(s) ==> text_of(Some(t)) == Some(s),
        t matches Tree::Bool(b) ==> bool_of(Some(t)) == Some(b),
        t matches Tree::Array(v) ==> array_of(Some(t)) == Some(v),
        !(t is Number) ==> unsigned_of(Some(t)) is None && signed_of(Some(t)) is None && single_of(
            Some(t),
        ) is None,
{
}

} // verus!
