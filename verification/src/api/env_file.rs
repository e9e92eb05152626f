//! Minimal `.env` parser: `KEY=VALUE` lines, blank lines and `#` comments
//! ignored, optional surrounding single/double quotes stripped from the value.
use crate::text;
use vstd::prelude::*;
use vstd::slice::slice_subrange;

verus! {

/// `v` without the quotes around it, if it has any.
pub open spec fn unquoted(v: Seq<char>) -> Seq<char> {
    if v.len() >= 2 && ((v[0] == '"' && v.last() == '"') || (v[0] == '\'' && v.last() == '\'')) {
        v.subrange(1, v.len() - 1)
    } else {
        v
    }
}

/// The assignment on a line, if there is one.
pub open spec fn assignment(line: Seq<char>) -> Option<(Seq<char>, Seq<char>)> {
    let l = text::trimmed(line);
    let i = text::index_of(l, '=');
    if l.len() == 0 || l[0] == '#' || i >= l.len() {
        None
    } else {
        Some((text::trimmed(l.take(i)), unquoted(text::trimmed(l.skip(i + 1)))))
    }
}

/// The assignments on some lines, in order.
pub open spec fn assignments_on(lines: Seq<Seq<char>>) -> Seq<(Seq<char>, Seq<char>)>
    decreases lines.len(),
{
    if lines.len() == 0 {
        Seq::empty()
    } else {
        let before = assignments_on(lines.drop_last());
        match assignment(lines.last()) {
            Some(a) => before.push(a),
            None => before,
        }
    }
}

/// The assignments in a file, in order.
pub open spec fn assignments(contents: Seq<char>) -> Seq<(Seq<char>, Seq<char>)> {
    assignments_on(text::lines_of(contents))
}

/// The value of a variable: what was assigned to it last.
pub open spec fn value_of(a: Seq<(Seq<char>, Seq<char>)>, key: Seq<char>) -> Option<Seq<char>>
    decreases a.len(),
{
    if a.len() == 0 {
        None
    } else if a.last().0 == key {
        Some(a.last().1)
    } else {
        value_of(a.drop_last(), key)
    }
}

/// The value of a variable in a file, trimmed, where it is not blank.
pub open spec fn variable(contents: Seq<char>, key: Seq<char>) -> Option<Seq<char>> {
    match value_of(assignments(contents), key) {
        Some(v) => if text::trimmed(v).len() > 0 {
            Some(text::trimmed(v))
        } else {
            None
        },
        None => None,
    }
}

pub open spec fn pair_views(v: Seq<(String, String)>) -> Seq<(Seq<char>, Seq<char>)> {
    v.map_values(|p: (String, String)| (p.0@, p.1@))
}

fn read_assignment(line: &[char]) -> (r: Option<(String, String)>)
    ensures
        match r {
            Some(p) => assignment(line@) == Some((p.0@, p.1@)),
            None => assignment(line@) is None,
        },
{
    let l: &[char] = text::trim(line);
    if l.len() == 0 || l[0] == '#' {
        return None;
    }
    let i: usize = text::position(l, '=');
    if i >= l.len() {
        return None;
    }
    let head: &[char] = slice_subrange(l, 0, i);
    let tail: &[char] = slice_subrange(l, i + 1, l.len());
    assert(head@ =~= l@.take(i as int));
    assert(tail@ =~= l@.skip(i + 1));
    let key: String = text::from_chars(text::trim(head));
    let v: &[char] = text::trim(tail);
    let n: usize = v.len();
    if n >= 2 && ((v[0] == '"' && v[n - 1] == '"') || (v[0] == '\'' && v[n - 1] == '\'')) {
        Some((key, text::from_chars(slice_subrange(v, 1, n - 1))))
    } else {
        Some((key, text::from_chars(v)))
    }
}

/// The assignments of a `.env` file, in order; where a key comes twice, the later
/// one counts.
pub fn parse_env_file(contents: &str) -> (r: Vec<(String, String)>)
    ensures
        pair_views(r@) == assignments(contents@),
{
    let chars: Vec<char> = text::to_chars(contents);
    let lines: Vec<Vec<char>> = text::lines(&chars);
    let ghost all = text::rows(lines@);
    let mut r: Vec<(String, String)> = Vec::new();
    let mut i: usize = 0;
    assert(all.take(0) =~= Seq::empty());
    assert(pair_views(r@) =~= Seq::empty());
    while i < lines.len()
        invariant
            i <= lines@.len(),
            all == text::rows(lines@),
            pair_views(r@) == assignments_on(all.take(i as int)),
        decreases lines.len() - i,
    {
        proof {
            assert(all.take(i + 1).drop_last() =~= all.take(i as int));
            assert(all.take(i + 1).last() == lines@[i as int]@);
        }
        let ghost before = pair_views(r@);
        match read_assignment(&lines[i]) {
            Some(p) => {
                let ghost pv = (p.0@, p.1@);
                r.push(p);
                assert(pair_views(r@) =~= before.push(pv));
            },
            None => {},
        }
        i = i + 1;
    }
    assert(all.take(i as int) =~= all);
    r
}

/// The value of a variable in a `.env` file, trimmed; `None` where it is missing
/// or blank.
pub fn env_file_var(contents: &str, key: &str) -> (r: Option<String>)
    ensures
        match r {
            Some(v) => variable(contents@, key@) == Some(v@),
            None => variable(contents@, key@) is None,
        },
{
    let vars: Vec<(String, String)> = parse_env_file(contents);
    let ghost all = pair_views(vars@);
    let mut n: usize = vars.len();
    assert(all.take(n as int) =~= all);
    while n > 0
        invariant
            n <= vars@.len(),
            all == pair_views(vars@),
            all == assignments(contents@),
            value_of(all, key@) == value_of(all.take(n as int), key@),
        decreases n,
    {
        proof {
            assert(all.take(n as int).last() == (vars@[n - 1].0@, vars@[n - 1].1@));
            assert(all.take(n as int).drop_last() =~= all.take(n - 1));
        }
        if text::same_text(vars[n - 1].0.as_str(), key) {
            let chars: Vec<char> = text::to_chars(vars[n - 1].1.as_str());
            let v: &[char] = text::trim(&chars);
            if v.len() > 0 {
                return Some(text::from_chars(v));
            } else {
                return None;
            }
        }
        n = n - 1;
    }
    None
}

/// What stands last wins: an assignment decides the value of its key, and of no
/// other.
pub proof fn law_later_assignments_win(
    a: Seq<(Seq<char>, Seq<char>)>,
    key: Seq<char>,
    value: Seq<char>,
    other: Seq<char>,
)
    ensures
        value_of(a.push((key, value)), key) == Some(value),
        other != key ==> value_of(a.push((key, value)), other) == value_of(a, other),
{
    assert(a.push((key, value)).drop_last() =~= a);
}

/// A line assigns what stands behind its first equals sign to the name in front
/// of it; one pair of quotes around the value goes.
pub proof fn law_a_line_assigns_a_value(key: Seq<char>, value: Seq<char>)
    requires
        0 < key.len(),
        text::trimmed(key) == key,
        !text::white(key[0]),
        key[0] != '#',
        forall|i: int| 0 <= i < key.len() ==> #[trigger] key[i] != '=',
        text::trimmed(value) == value,
        value.len() > 0 ==> !text::white(value[value.len() - 1]),
    ensures
        assignment(key + seq!['='] + value) == Some((key, unquoted(value))),
        assignment(seq!['#'] + key + seq!['='] + value) is None,
{
    let l = key + seq!['='] + value;
    assert(l[0] == key[0]);
    assert(value.len() > 0 ==> l.last() == value[value.len() - 1]);
    assert(value.len() == 0 ==> l.last() == '=');
    assert(text::trimmed_start(l) == l);
    assert(text::trimmed_end(l) == l);
    assert forall|i: int| 0 <= i < key.len() implies l[i] != '=' by {
        assert(l[i] == key[i]);
    }
    text::lemma_index_of_is(l, '=', key.len() as int);
    assert(l.take(key.len() as int) =~= key);
    assert(l.skip(key.len() as int + 1) =~= value);
    let c = seq!['#'] + key + seq!['='] + value;
    assert(c[0] == '#');
    assert(text::trimmed_start(c) == c);
    assert(value.len() > 0 ==> c.last() == value[value.len() - 1]);
    assert(value.len() == 0 ==> c.last() == '=');
    assert(text::trimmed_end(c) == c);
}

/// Quotes go in pairs, and only from both ends.
pub proof fn law_a_pair_of_quotes_goes(v: Seq<char>)
    ensures
        unquoted(seq!['"'] + v + seq!['"']) == v,
        unquoted(seq!['\''] + v + seq!['\'']) == v,
        v.len() > 0 && v[0] != '"' && v[0] != '\'' ==> unquoted(v) == v,
{
    assert(unquoted(seq!['"'] + v + seq!['"']) =~= v);
    assert(unquoted(seq!['\''] + v + seq!['\'']) =~= v);
}

proof fn lemma_assignments_of_two(a: Seq<Seq<char>>, b: Seq<Seq<char>>)
    ensures
        assignments_on(a + b) == assignments_on(a) + assignments_on(b),
    decreases b.len(),
{
    if b.len() > 0 {
        lemma_assignments_of_two(a, b.drop_last());
        assert((a + b).drop_last() =~= a + b.drop_last());
        assert(assignments_on(a + b) =~= assignments_on(a) + assignments_on(b));
    } else {
        assert(a + b =~= a);
        assert(assignments_on(a + b) =~= assignments_on(a) + assignments_on(b));
    }
}

/// The lines of a file assign one after the other, each what it assigns alone;
/// one that assigns nothing is passed over.
pub proof fn law_lines_assign_in_order(line: Seq<char>, rest: Seq<char>)
    requires
        forall|i: int| 0 <= i < line.len() ==> #[trigger] line[i] != '\n',
        line.len() > 0 ==> line.last() != '\r',
    ensures
        assignments(line + seq!['\n'] + rest) == (match assignment(line) {
            Some(a) => seq![a],
            None => Seq::empty(),
        }) + assignments(rest),
        assignments(Seq::empty()) == Seq::<(Seq<char>, Seq<char>)>::empty(),
{
    text::law_a_line_ends_at_its_line_feed(line, rest);
    lemma_assignments_of_two(seq![line], text::lines_of(rest));
    let one = seq![line];
    assert(one.drop_last() =~= Seq::<Seq<char>>::empty());
    assert(one.last() == line);
    assert(assignments_on(Seq::<Seq<char>>::empty()) =~= Seq::empty());
    assert(assignments_on(one) =~= match assignment(line) {
        Some(a) => seq![a],
        None => Seq::empty(),
    });
}

/// The value of a variable is what was assigned to it last, without the blanks
/// around it; a blank one is no value.
pub proof fn law_a_blank_value_is_none(contents: Seq<char>, key: Seq<char>)
    ensures
        variable(contents, key) matches Some(v) ==> v.len() > 0 && (value_of(
            assignments(contents),
            key,
        ) matches Some(w) && v == text::trimmed(w)),
        value_of(assignments(contents), key) is None ==> variable(contents, key) is None,
        value_of(assignments(contents), key) matches Some(w) ==> (variable(contents, key) is None
            <==> text::trimmed(w).len() == 0),
{
}

} // verus!
