//! What is safe to hand to the client.
//!
//! A decode loop produces text piece by piece, and a stop or filter sequence
//! may be spread over several pieces. Text that could still grow into one is
//! held back in a buffer until the next piece settles it.
use crate::text;
use vstd::prelude::*;
use vstd::slice::slice_subrange;
use vstd::utf8::encode_utf8;

verus! {

/// Outcome of feeding one decoded piece through the stop-sequence filter.
#[derive(Debug, PartialEq, Eq)]
pub enum PieceOutcome {
    /// Safe-to-stream text (may be empty); generation continues.
    Emit(String),
    /// A full stop sequence was hit. The contained text is whatever preceded
    /// the stop marker and should be streamed before finishing.
    Stop(String),
}

/// What an outcome says, in terms of its text.
#[verifier::ext_equal]
pub ghost enum Fed {
    Emit { out: Seq<char>, held: Seq<char> },
    Stop { out: Seq<char> },
}

/// One of `marks` stands in `buf` at `i`.
pub open spec fn any_at(buf: Seq<char>, marks: Seq<Seq<char>>, i: int) -> bool {
    exists|m: int| 0 <= m < marks.len() && #[trigger] text::occurs_at(buf, marks[m], i)
}

pub open spec fn first_from(buf: Seq<char>, marks: Seq<Seq<char>>, i: int) -> Option<int>
    decreases buf.len() - i + 1,
{
    if i > buf.len() {
        None
    } else if any_at(buf, marks, i) {
        Some(i)
    } else {
        first_from(buf, marks, i + 1)
    }
}

/// The first position at which one of `marks` stands in `buf`.
pub open spec fn first_mark(buf: Seq<char>, marks: Seq<Seq<char>>) -> Option<int> {
    first_from(buf, marks, 0)
}

/// `run` is the beginning, but not the whole, of one of `marks`.
pub open spec fn begins_mark(run: Seq<char>, marks: Seq<Seq<char>>) -> bool {
    exists|m: int|
        0 <= m < marks.len() && run.len() < marks[m].len() && #[trigger] text::is_prefix(
            run,
            marks[m],
        )
}

pub open spec fn held_upto(buf: Seq<char>, marks: Seq<Seq<char>>, k: int) -> int
    decreases k,
{
    if k <= 0 {
        0
    } else if begins_mark(buf.skip(buf.len() - k), marks) {
        k
    } else {
        held_upto(buf, marks, k - 1)
    }
}

/// The length of the longest suffix of `buf` that could still grow into one
/// of `marks`.
pub open spec fn held(buf: Seq<char>, marks: Seq<Seq<char>>) -> int {
    held_upto(buf, marks, buf.len() as int)
}

/// `buf` after the first occurrence of `f` has been cut out, again and again
/// until none is left.
pub open spec fn elided(buf: Seq<char>, f: Seq<char>) -> Seq<char>
    decreases buf.len(),
{
    match first_mark(buf, seq![f]) {
        Some(i) => if 0 <= i <= buf.len() - f.len() && f.len() > 0 {
            elided(buf.take(i) + buf.skip(i + f.len()), f)
        } else {
            buf
        },
        None => buf,
    }
}

/// `buf` after each of `filters` in turn has been elided.
pub open spec fn elided_all(buf: Seq<char>, filters: Seq<Seq<char>>) -> Seq<char>
    decreases filters.len(),
{
    if filters.len() == 0 {
        buf
    } else {
        elided(elided_all(buf, filters.drop_last()), filters.last())
    }
}

/// What becomes of the buffer's text once a piece has been appended to it.
pub open spec fn fed(buf: Seq<char>, stops: Seq<Seq<char>>, filters: Seq<Seq<char>>) -> Fed {
    match first_mark(buf, stops) {
        Some(i) => Fed::Stop { out: buf.take(i) },
        None => {
            let kept = elided_all(buf, filters);
            let a = held(kept, stops);
            let b = held(kept, filters);
            let h = if a >= b {
                a
            } else {
                b
            };
            Fed::Emit { out: kept.take(kept.len() - h), held: kept.skip(kept.len() - h) }
        },
    }
}

pub proof fn lemma_first_from(buf: Seq<char>, marks: Seq<Seq<char>>, i: int)
    requires
        0 <= i,
    ensures
        match first_from(buf, marks, i) {
            Some(k) => i <= k <= buf.len() && any_at(buf, marks, k) && forall|j: int|
                i <= j < k ==> !any_at(buf, marks, j),
            None => forall|j: int| i <= j ==> !any_at(buf, marks, j),
        },
    decreases buf.len() - i + 1,
{
    if i > buf.len() {
        assert forall|j: int| i <= j implies !any_at(buf, marks, j) by {}
    } else if !any_at(buf, marks, i) {
        lemma_first_from(buf, marks, i + 1);
    }
}

/// The first position of a mark, told by its two properties.
pub proof fn lemma_first_mark(buf: Seq<char>, marks: Seq<Seq<char>>)
    ensures
        match first_mark(buf, marks) {
            Some(k) => 0 <= k <= buf.len() && any_at(buf, marks, k) && forall|j: int|
                0 <= j < k ==> !any_at(buf, marks, j),
            None => forall|j: int| !any_at(buf, marks, j),
        },
{
    lemma_first_from(buf, marks, 0);
    assert forall|j: int| j < 0 implies !any_at(buf, marks, j) by {}
}

pub proof fn lemma_first_mark_is(buf: Seq<char>, marks: Seq<Seq<char>>, k: int)
    requires
        any_at(buf, marks, k),
        forall|j: int| 0 <= j < k ==> !any_at(buf, marks, j),
    ensures
        first_mark(buf, marks) == Some(k),
{
    lemma_first_mark(buf, marks);
}

pub proof fn lemma_held_upto(buf: Seq<char>, marks: Seq<Seq<char>>, k: int)
    requires
        0 <= k <= buf.len(),
    ensures
        0 <= held_upto(buf, marks, k) <= k,
        held_upto(buf, marks, k) > 0 ==> begins_mark(
            buf.skip(buf.len() - held_upto(buf, marks, k)),
            marks,
        ),
        forall|j: int|
            held_upto(buf, marks, k) < j <= k ==> !begins_mark(
                #[trigger] buf.skip(buf.len() - j),
                marks,
            ),
    decreases k,
{
    if k > 0 && !begins_mark(buf.skip(buf.len() - k), marks) {
        lemma_held_upto(buf, marks, k - 1);
    }
}

/// No suffix longer than the held one begins a mark.
pub proof fn lemma_held(buf: Seq<char>, marks: Seq<Seq<char>>)
    ensures
        0 <= held(buf, marks) <= buf.len(),
        held(buf, marks) > 0 ==> begins_mark(buf.skip(buf.len() - held(buf, marks)), marks),
        forall|j: int|
            held(buf, marks) < j <= buf.len() ==> !begins_mark(
                #[trigger] buf.skip(buf.len() - j),
                marks,
            ),
{
    lemma_held_upto(buf, marks, buf.len() as int);
}

/// The first position at which one of `marks` stands in `buf`.
fn find_mark(buf: &[char], marks: &[String]) -> (r: Option<usize>)
    ensures
        match r {
            Some(i) => i <= buf@.len() && first_mark(buf@, text::views(marks@)) == Some(i as int),
            None => first_mark(buf@, text::views(marks@)) is None,
        },
{
    let mut cut: Option<usize> = None;
    let mut m: usize = 0;
    let ghost all = text::views(marks@);
    while m < marks.len()
        invariant
            m <= marks@.len(),
            all == text::views(marks@),
            match cut {
                Some(i) => i <= buf@.len() && any_at(buf@, all.take(m as int), i as int) && forall|
                    j: int,
                |
                    0 <= j < i ==> !any_at(buf@, all.take(m as int), j),
                None => forall|j: int| !any_at(buf@, all.take(m as int), j),
            },
        decreases marks.len() - m,
    {
        let ghost before = all.take(m as int);
        let ghost after = all.take(m + 1);
        let mark: Vec<char> = text::to_chars(marks[m].as_str());
        assert(after[m as int] == mark@);
        assert forall|j: int| any_at(buf@, before, j) implies any_at(buf@, after, j) by {
            let q = choose|q: int|
                0 <= q < before.len() && #[trigger] text::occurs_at(buf@, before[q], j);
            assert(text::occurs_at(buf@, after[q], j));
        }
        assert forall|j: int| any_at(buf@, after, j) implies any_at(buf@, before, j)
            || text::occurs_at(buf@, mark@, j) by {
            let q = choose|q: int|
                0 <= q < after.len() && #[trigger] text::occurs_at(buf@, after[q], j);
            if q < m {
                assert(text::occurs_at(buf@, before[q], j));
            }
        }
        match text::find(buf, &mark) {
            Some(pos) => {
                assert(text::occurs_at(buf@, after[m as int], pos as int));
                cut = match cut {
                    Some(c) => if c < pos {
                        Some(c)
                    } else {
                        Some(pos)
                    },
                    None => Some(pos),
                };
            },
            None => {},
        }
        m = m + 1;
    }
    proof {
        assert(all.take(m as int) =~= all);
        lemma_first_mark(buf@, all);
    }
    cut
}

/// The length of the longest suffix of `buf` that begins one of `marks`.
fn held_chars(buf: &[char], marks: &[String]) -> (r: usize)
    ensures
        r == held(buf@, text::views(marks@)),
        r <= buf@.len(),
{
    let ghost all = text::views(marks@);
    let mut k: usize = buf.len();
    while k > 0
        invariant
            k <= buf@.len(),
            all == text::views(marks@),
            held(buf@, all) == held_upto(buf@, all, k as int),
        decreases k,
    {
        let run: &[char] = slice_subrange(buf, buf.len() - k, buf.len());
        assert(run@ =~= buf@.skip(buf@.len() - k));
        let mut m: usize = 0;
        while m < marks.len()
            invariant
                0 < k <= buf@.len(),
                m <= marks@.len(),
                all == text::views(marks@),
                run@ == buf@.skip(buf@.len() - k),
                held(buf@, all) == held_upto(buf@, all, k as int),
                forall|q: int|
                    0 <= q < m ==> !(run@.len() < all[q].len() && #[trigger] text::is_prefix(
                        run@,
                        all[q],
                    )),
            decreases marks.len() - m,
        {
            let mark: Vec<char> = text::to_chars(marks[m].as_str());
            assert(all[m as int] == mark@);
            if run.len() < mark.len() && text::starts_with(&mark, run) {
                assert(text::is_prefix(run@, all[m as int]));
                return k;
            }
            m = m + 1;
        }
        assert(!begins_mark(run@, all));
        k = k - 1;
    }
    0
}

/// Length (in bytes) of the longest suffix of `buf` that is a *proper* prefix
/// of any stop sequence. This is the amount of trailing text that must be held
/// back: it could still grow into a full stop sequence on the next token.
pub fn stop_prefix_holdback(buf: &str, stops: &[String]) -> (r: usize)
    ensures
        r == encode_utf8(buf@.skip(buf@.len() - held(buf@, text::views(stops@)))).len(),
{
    let chars: Vec<char> = text::to_chars(buf);
    let k: usize = held_chars(&chars, stops);
    let tail: &[char] = slice_subrange(&chars, chars.len() - k, chars.len());
    assert(tail@ =~= buf@.skip(buf@.len() - k));
    let s: String = text::from_chars(tail);
    s.as_str().as_bytes().len()
}

/// `buf` with every occurrence of `f` cut out.
fn elide(start: Vec<char>, f: &String) -> (r: Vec<char>)
    ensures
        r@ == elided(start@, f@),
{
    let mark: Vec<char> = text::to_chars(f.as_str());
    if mark.len() == 0 {
        return start;
    }
    let mut buf: Vec<char> = start;
    let ghost one = seq![f@];
    loop
        invariant
            mark@ == f@,
            mark@.len() > 0,
            one == seq![f@],
            elided(start@, f@) == elided(buf@, f@),
        decreases buf.len(),
    {
        let found: Option<usize> = text::find(&buf, &mark);
        proof {
            assert forall|j: int| any_at(buf@, one, j) == text::occurs_at(buf@, mark@, j) by {
                if text::occurs_at(buf@, mark@, j) {
                    assert(text::occurs_at(buf@, one[0], j));
                }
            }
            lemma_first_mark(buf@, one);
        }
        match found {
            Some(i) => {
                let ghost here = buf@;
                let mut next: Vec<char> = text::copy_chars(slice_subrange(&buf, 0, i));
                let tail: &[char] = slice_subrange(&buf, i + mark.len(), buf.len());
                next.extend_from_slice(tail);
                assert(next@ =~= here.take(i as int) + here.skip(i + mark@.len()));
                proof {
                    assert(any_at(here, one, i as int));
                    lemma_first_mark_is(here, one, i as int);
                }
                buf = next;
            },
            None => {
                assert forall|j: int| !any_at(buf@, one, j) by {
                    if text::occurs_at(buf@, mark@, j) {
                        assert(text::occurs(buf@, mark@));
                    }
                }
                return buf;
            },
        }
    }
}

/// Feed one decoded `piece` into the per-sequence `pending` hold-back buffer and
/// decide what is safe to stream.
///
/// - If appending the piece completes a stop sequence, everything up to the
///   stop marker is returned as `Stop(..)` and `pending` is cleared.
/// - Otherwise the longest trailing run that could still become a stop or a
///   filter sequence is retained in `pending`, and the rest is returned as
///   `Emit(..)`, every complete filter sequence cut out.
pub fn process_piece(
    pending: &mut String,
    stops: &[String],
    filters: &[String],
    piece: &str,
) -> (r: PieceOutcome)
    ensures
        match fed(old(pending)@ + piece@, text::views(stops@), text::views(filters@)) {
            Fed::Stop { out } => {
                &&& r matches PieceOutcome::Stop(s)
                &&& s@ == out
                &&& final(pending)@ == Seq::<char>::empty()
            },
            Fed::Emit { out, held } => {
                &&& r matches PieceOutcome::Emit(s)
                &&& s@ == out
                &&& final(pending)@ == held
            },
        },
{
    let mut buf: Vec<char> = text::to_chars(pending.as_str());
    let more: Vec<char> = text::to_chars(piece);
    buf.extend_from_slice(&more);
    let ghost whole = old(pending)@ + piece@;
    assert(buf@ =~= whole);
    match find_mark(&buf, stops) {
        Some(i) => {
            let head: &[char] = slice_subrange(&buf, 0, i);
            assert(head@ =~= whole.take(i as int));
            let out: String = text::from_chars(head);
            *pending = String::new();
            return PieceOutcome::Stop(out);
        },
        None => {},
    }
    let mut f: usize = 0;
    let ghost all = text::views(filters@);
    assert(all.take(0) =~= Seq::empty());
    while f < filters.len()
        invariant
            f <= filters@.len(),
            all == text::views(filters@),
            buf@ == elided_all(whole, all.take(f as int)),
        decreases filters.len() - f,
    {
        buf = elide(buf, &filters[f]);
        proof {
            assert(all.take(f + 1).drop_last() =~= all.take(f as int));
            assert(all.take(f + 1).last() == filters@[f as int]@);
        }
        f = f + 1;
    }
    assert(all.take(f as int) =~= all);
    let a: usize = held_chars(&buf, stops);
    let b: usize = held_chars(&buf, filters);
    let h: usize = if a >= b {
        a
    } else {
        b
    };
    let upto: usize = buf.len() - h;
    let head: &[char] = slice_subrange(&buf, 0, upto);
    let tail: &[char] = slice_subrange(&buf, upto, buf.len());
    assert(head@ =~= buf@.take(upto as int));
    assert(tail@ =~= buf@.skip(upto as int));
    *pending = text::from_chars(tail);
    PieceOutcome::Emit(text::from_chars(head))
}

/// Take whatever is still held back, for a generation that ended without a stop
/// sequence.
pub fn flush(pending: &mut String) -> (r: String)
    ensures
        r@ == old(pending)@,
        final(pending)@ == Seq::<char>::empty(),
{
    let r: String = pending.clone();
    *pending = String::new();
    r
}

/// The pieces one after the other.
pub open spec fn whole(pieces: Seq<Seq<char>>) -> Seq<char>
    decreases pieces.len(),
{
    if pieces.len() == 0 {
        Seq::empty()
    } else {
        whole(pieces.drop_last()) + pieces.last()
    }
}

/// A stream after some pieces: what the client has been sent, what is held
/// back, and whether a stop sequence has ended it.
#[verifier::ext_equal]
pub ghost struct Streamed {
    pub out: Seq<char>,
    pub held: Seq<char>,
    pub stopped: bool,
}

/// The stream that results from feeding `pieces` one by one.
pub open spec fn streamed(
    pieces: Seq<Seq<char>>,
    stops: Seq<Seq<char>>,
    filters: Seq<Seq<char>>,
) -> Streamed
    decreases pieces.len(),
{
    if pieces.len() == 0 {
        Streamed { out: Seq::empty(), held: Seq::empty(), stopped: false }
    } else {
        let before = streamed(pieces.drop_last(), stops, filters);
        if before.stopped {
            before
        } else {
            match fed(before.held + pieces.last(), stops, filters) {
                Fed::Stop { out } => Streamed {
                    out: before.out + out,
                    held: Seq::empty(),
                    stopped: true,
                },
                Fed::Emit { out, held } => Streamed {
                    out: before.out + out,
                    held,
                    stopped: false,
                },
            }
        }
    }
}

proof fn lemma_occurs_shift(a: Seq<char>, b: Seq<char>, m: Seq<char>, j: int)
    requires
        0 <= j,
    ensures
        text::occurs_at(a + b, m, a.len() + j) == text::occurs_at(b, m, j),
{
    if j + m.len() <= b.len() {
        assert((a + b).subrange(a.len() + j, a.len() + j + m.len()) =~= b.subrange(
            j,
            j + m.len(),
        ));
    }
}

proof fn lemma_any_shift(a: Seq<char>, b: Seq<char>, marks: Seq<Seq<char>>, j: int)
    requires
        0 <= j,
    ensures
        any_at(a + b, marks, a.len() + j) == any_at(b, marks, j),
{
    if any_at(a + b, marks, a.len() + j) {
        let m = choose|m: int|
            0 <= m < marks.len() && #[trigger] text::occurs_at(a + b, marks[m], a.len() + j);
        lemma_occurs_shift(a, b, marks[m], j);
        assert(text::occurs_at(b, marks[m], j));
    }
    if any_at(b, marks, j) {
        let m = choose|m: int| 0 <= m < marks.len() && #[trigger] text::occurs_at(b, marks[m], j);
        lemma_occurs_shift(a, b, marks[m], j);
        assert(text::occurs_at(a + b, marks[m], a.len() + j));
    }
}

proof fn lemma_any_in_prefix(a: Seq<char>, b: Seq<char>, marks: Seq<Seq<char>>, j: int)
    requires
        any_at(a, marks, j),
    ensures
        any_at(a + b, marks, j),
{
    let m = choose|m: int| 0 <= m < marks.len() && #[trigger] text::occurs_at(a, marks[m], j);
    assert((a + b).subrange(j, j + marks[m].len()) =~= a.subrange(j, j + marks[m].len()));
    assert(text::occurs_at(a + b, marks[m], j));
}

/// A text without marks, of which at least the run that could grow into one
/// is held back: what follows can only complete a mark inside that run.
proof fn lemma_no_mark_before(
    out: Seq<char>,
    kept: Seq<char>,
    piece: Seq<char>,
    marks: Seq<Seq<char>>,
    j: int,
)
    requires
        first_mark(out + kept, marks) is None,
        held(out + kept, marks) <= kept.len(),
        0 <= j < out.len(),
    ensures
        !any_at(out + (kept + piece), marks, j),
{
    let t = out + kept;
    let u = out + (kept + piece);
    lemma_first_mark(t, marks);
    lemma_held(t, marks);
    if any_at(u, marks, j) {
        let m = choose|m: int| 0 <= m < marks.len() && #[trigger] text::occurs_at(u, marks[m], j);
        let s = marks[m];
        if j + s.len() <= t.len() {
            assert(t.subrange(j, j + s.len()) =~= u.subrange(j, j + s.len()));
            assert(text::occurs_at(t, marks[m], j));
            assert(any_at(t, marks, j));
        } else {
            let k = t.len() - j;
            let run = t.skip(t.len() - k);
            assert(s.take(run.len() as int) =~= run) by {
                assert(u.subrange(j, j + s.len()) =~= s);
                assert forall|q: int| 0 <= q < run.len() implies s[q] == run[q] by {
                    assert(u.subrange(j, j + s.len())[q] == u[j + q]);
                }
            }
            assert(text::is_prefix(run, marks[m]));
            assert(begins_mark(run, marks));
        }
    }
}

proof fn lemma_held_grows(
    out: Seq<char>,
    kept: Seq<char>,
    piece: Seq<char>,
    marks: Seq<Seq<char>>,
)
    requires
        held(out + kept, marks) <= kept.len(),
    ensures
        held(out + (kept + piece), marks) == held(kept + piece, marks),
{
    let t = out + kept;
    let b = kept + piece;
    let u = out + b;
    lemma_held(t, marks);
    lemma_held(u, marks);
    lemma_held(b, marks);
    let k = held(u, marks);
    let kb = held(b, marks);
    if k > b.len() {
        let run = u.skip(u.len() - k);
        let m = choose|m: int|
            0 <= m < marks.len() && run.len() < marks[m].len() && #[trigger] text::is_prefix(
                run,
                marks[m],
            );
        let l = k - piece.len();
        let short = t.skip(t.len() - l);
        assert(marks[m].take(short.len() as int) =~= short) by {
            assert forall|q: int| 0 <= q < short.len() implies marks[m][q] == short[q] by {
                assert(marks[m].take(run.len() as int)[q] == run[q]);
            }
        }
        assert(text::is_prefix(short, marks[m]));
        assert(begins_mark(short, marks));
    } else {
        assert(u.skip(u.len() - k) =~= b.skip(b.len() - k));
        assert(u.skip(u.len() - kb) =~= b.skip(b.len() - kb));
    }
}

/// None of `filters` stands in `buf`; an empty filter counts for nothing.
pub open spec fn clear_of(buf: Seq<char>, filters: Seq<Seq<char>>) -> bool {
    forall|m: int, j: int|
        0 <= m < filters.len() && filters[m].len() > 0 ==> !#[trigger] text::occurs_at(
            buf,
            filters[m],
            j,
        )
}

proof fn lemma_elided_none(buf: Seq<char>, filters: Seq<Seq<char>>)
    requires
        clear_of(buf, filters),
    ensures
        elided_all(buf, filters) == buf,
    decreases filters.len(),
{
    if filters.len() > 0 {
        let front = filters.drop_last();
        assert forall|m: int, j: int|
            0 <= m < front.len() && front[m].len() > 0 implies !#[trigger] text::occurs_at(
            buf,
            front[m],
            j,
        ) by {
            assert(front[m] == filters[m]);
            assert(!text::occurs_at(buf, filters[m], j));
        }
        lemma_elided_none(buf, front);
        let one = seq![filters.last()];
        lemma_first_mark(buf, one);
        if first_mark(buf, one) is Some && filters.last().len() > 0 {
            let i = first_mark(buf, one)->0;
            let m = choose|m: int| 0 <= m < one.len() && #[trigger] text::occurs_at(buf, one[m], i);
            assert(text::occurs_at(buf, filters[filters.len() - 1], i));
        }
    }
}

proof fn lemma_clear_parts(a: Seq<char>, b: Seq<char>, filters: Seq<Seq<char>>)
    requires
        clear_of(a + b, filters),
    ensures
        clear_of(a, filters),
        clear_of(b, filters),
{
    assert forall|m: int, j: int|
        0 <= m < filters.len() && filters[m].len() > 0 implies !#[trigger] text::occurs_at(
        a,
        filters[m],
        j,
    ) by {
        if text::occurs_at(a, filters[m], j) {
            let s = filters[m];
            assert((a + b).subrange(j, j + s.len()) =~= a.subrange(j, j + s.len()));
            assert(text::occurs_at(a + b, filters[m], j));
        }
    }
    assert forall|m: int, j: int|
        0 <= m < filters.len() && filters[m].len() > 0 implies !#[trigger] text::occurs_at(
        b,
        filters[m],
        j,
    ) by {
        if text::occurs_at(b, filters[m], j) {
            lemma_occurs_shift(a, b, filters[m], j);
            assert(text::occurs_at(a + b, filters[m], a.len() + j));
        }
    }
}

/// A stream whose stop sequence was completed by the `n`-th piece: the client
/// has been sent the text in front of the first stop sequence.
pub open spec fn stopped_by(
    r: Streamed,
    pieces: Seq<Seq<char>>,
    stops: Seq<Seq<char>>,
    n: int,
) -> bool {
    &&& 0 < n <= pieces.len()
    &&& first_mark(whole(pieces.take(n - 1)), stops) is None
    &&& first_mark(whole(pieces.take(n)), stops) matches Some(i) && r.out == whole(
        pieces.take(n),
    ).take(i)
}

/// One more piece: a stop sequence is found where it stands in all of the text,
/// and otherwise nothing is lost.
proof fn lemma_stream_step(
    out: Seq<char>,
    kept: Seq<char>,
    piece: Seq<char>,
    stops: Seq<Seq<char>>,
    filters: Seq<Seq<char>>,
)
    requires
        first_mark(out + kept, stops) is None,
        held(out + kept, stops) <= kept.len(),
        held(out + kept, filters) <= kept.len(),
        clear_of(out + (kept + piece), filters),
    ensures
        ({
            let t = out + (kept + piece);
            match fed(kept + piece, stops, filters) {
                Fed::Stop { out: o } => {
                    &&& first_mark(t, stops) == Some((out.len() + o.len()) as int)
                    &&& t.take((out.len() + o.len()) as int) == out + o
                },
                Fed::Emit { out: o, held: h } => {
                    &&& (out + o) + h == t
                    &&& first_mark(t, stops) is None
                    &&& held(t, stops) <= h.len()
                    &&& held(t, filters) <= h.len()
                },
            }
        }),
{
    let b = kept + piece;
    let t = out + b;
    lemma_clear_parts(out, b, filters);
    lemma_elided_none(b, filters);
    lemma_held_grows(out, kept, piece, stops);
    lemma_held_grows(out, kept, piece, filters);
    assert forall|j: int| 0 <= j < out.len() implies !any_at(t, stops, j) by {
        lemma_no_mark_before(out, kept, piece, stops, j);
    }
    lemma_first_mark(b, stops);
    lemma_held(b, stops);
    lemma_held(b, filters);
    match first_mark(b, stops) {
        Some(i) => {
            lemma_any_shift(out, b, stops, i);
            let k = out.len() + i;
            assert forall|j: int| 0 <= j < k implies !any_at(t, stops, j) by {
                if j >= out.len() {
                    lemma_any_shift(out, b, stops, j - out.len());
                }
            }
            lemma_first_mark_is(t, stops, k);
            assert(t.take(k) =~= out + b.take(i));
        },
        None => {
            lemma_first_mark(t, stops);
            if first_mark(t, stops) is Some {
                let k = first_mark(t, stops)->0;
                lemma_any_shift(out, b, stops, k - out.len());
            }
            let h = fed(b, stops, filters)->held;
            assert((out + fed(b, stops, filters)->Emit_out) + h =~= t);
        },
    }
}

/// Text in which no filter sequence stands is streamed without loss and
/// without a stop sequence, whichever way it was cut into pieces. While no stop
/// sequence has been completed, what was sent and what is held back make up
/// all of the text. Once one has, the client has been sent exactly the text in
/// front of the first stop sequence of the pieces fed so far.
pub proof fn law_stream(pieces: Seq<Seq<char>>, stops: Seq<Seq<char>>, filters: Seq<Seq<char>>)
    requires
        clear_of(whole(pieces), filters),
        forall|m: int| 0 <= m < stops.len() ==> #[trigger] stops[m].len() > 0,
    ensures
        ({
            let r = streamed(pieces, stops, filters);
            if r.stopped {
                exists|n: int| stopped_by(r, pieces, stops, n)
            } else {
                &&& r.out + r.held == whole(pieces)
                &&& first_mark(whole(pieces), stops) is None
                &&& held(whole(pieces), stops) <= r.held.len()
                &&& held(whole(pieces), filters) <= r.held.len()
            }
        }),
    decreases pieces.len(),
{
    let r = streamed(pieces, stops, filters);
    if pieces.len() == 0 {
        let e = Seq::<char>::empty();
        lemma_held(e, stops);
        lemma_held(e, filters);
        assert(r.out + r.held =~= e);
        lemma_first_mark(e, stops);
        if first_mark(e, stops) is Some {
            let i = first_mark(e, stops)->0;
            let m = choose|m: int| 0 <= m < stops.len() && #[trigger] text::occurs_at(e, stops[m], i);
            assert(stops[m].len() > 0);
        }
    } else {
        let front = pieces.drop_last();
        let piece = pieces.last();
        lemma_clear_parts(whole(front), piece, filters);
        law_stream(front, stops, filters);
        let before = streamed(front, stops, filters);
        if before.stopped {
            let n = choose|n: int| stopped_by(before, front, stops, n);
            assert(front.take(n) =~= pieces.take(n));
            assert(front.take(n - 1) =~= pieces.take(n - 1));
            assert(stopped_by(r, pieces, stops, n));
        } else {
            let t = whole(pieces);
            assert(t =~= before.out + (before.held + piece));
            lemma_stream_step(before.out, before.held, piece, stops, filters);
            assert(pieces.take(pieces.len() as int) =~= pieces);
            assert(pieces.take(pieces.len() - 1) =~= front);
            if r.stopped {
                assert(stopped_by(r, pieces, stops, pieces.len() as int));
            }
        }
    }
}

/// Text that a stop sequence has ended never shows one.
pub proof fn law_stopped_text_is_clean(
    pieces: Seq<Seq<char>>,
    stops: Seq<Seq<char>>,
    filters: Seq<Seq<char>>,
)
    requires
        clear_of(whole(pieces), filters),
        forall|m: int| 0 <= m < stops.len() ==> #[trigger] stops[m].len() > 0,
    ensures
        first_mark(streamed(pieces, stops, filters).out, stops) is None,
{
    law_stream(pieces, stops, filters);
    let r = streamed(pieces, stops, filters);
    lemma_first_mark(r.out, stops);
    if first_mark(r.out, stops) is Some {
        let i = first_mark(r.out, stops)->0;
        let m = choose|m: int| 0 <= m < stops.len() && #[trigger] text::occurs_at(r.out, stops[m], i);
        assert(stops[m].len() > 0);
        if r.stopped {
            let n = choose|n: int| stopped_by(r, pieces, stops, n);
            let t = whole(pieces.take(n));
            let k = first_mark(t, stops)->0;
            lemma_first_mark(t, stops);
            assert(t =~= r.out + t.skip(k));
            lemma_any_in_prefix(r.out, t.skip(k), stops, i);
        } else {
            lemma_first_mark(whole(pieces), stops);
            lemma_any_in_prefix(r.out, r.held, stops, i);
        }
    }
}

/// A stop sequence ends a text at the first place where one stands: what is in
/// front of it is sent, and where none stands the text goes on.
pub proof fn law_a_stop_sequence_ends_at_its_first_place(
    buf: Seq<char>,
    stops: Seq<Seq<char>>,
    filters: Seq<Seq<char>>,
)
    ensures
        match fed(buf, stops, filters) {
            Fed::Stop { out } => {
                &&& out.len() <= buf.len()
                &&& out == buf.take(out.len() as int)
                &&& exists|m: int|
                    0 <= m < stops.len() && out.len() + (#[trigger] stops[m]).len() <= buf.len()
                        && buf.subrange(out.len() as int, out.len() as int + stops[m].len()) == stops[m]
                &&& forall|m: int, i: int|
                    0 <= m < stops.len() && 0 <= i < out.len() && i + stops[m].len() <= buf.len()
                        ==> #[trigger] buf.subrange(i, i + stops[m].len()) != stops[m]
            },
            Fed::Emit { .. } => forall|m: int, i: int|
                0 <= m < stops.len() && 0 <= i && i + stops[m].len() <= buf.len()
                    ==> #[trigger] buf.subrange(i, i + stops[m].len()) != stops[m],
        },
{
    lemma_first_mark(buf, stops);
    match first_mark(buf, stops) {
        Some(k) => {
            let m = choose|m: int|
                0 <= m < stops.len() && #[trigger] text::occurs_at(buf, stops[m], k);
            assert(buf.subrange(k, k + stops[m].len()) == stops[m]);
            assert forall|m: int, i: int|
                0 <= m < stops.len() && 0 <= i < k && i + stops[m].len() <= buf.len() implies #[trigger] buf.subrange(
            i, i + stops[m].len()) != stops[m] by {
                if buf.subrange(i, i + stops[m].len()) == stops[m] {
                    assert(text::occurs_at(buf, stops[m], i));
                    assert(any_at(buf, stops, i));
                }
            }
        },
        None => {
            assert forall|m: int, i: int|
                0 <= m < stops.len() && 0 <= i && i + stops[m].len() <= buf.len() implies #[trigger] buf.subrange(
            i, i + stops[m].len()) != stops[m] by {
                if buf.subrange(i, i + stops[m].len()) == stops[m] {
                    assert(text::occurs_at(buf, stops[m], i));
                    assert(any_at(buf, stops, i));
                }
            }
        },
    }
}

/// What is not sent is held back, and no more than must be: sent and held make up
/// the filtered text; whatever its end could still grow into, a stop or a filter
/// sequence, is held; and what is held is the beginning of one.
pub proof fn law_only_what_could_grow_is_held_back(
    buf: Seq<char>,
    stops: Seq<Seq<char>>,
    filters: Seq<Seq<char>>,
)
    ensures
        fed(buf, stops, filters) matches Fed::Emit { out, held: kept } ==> {
            let all = elided_all(buf, filters);
            &&& out + kept == all
            &&& forall|m: int, k: int|
                0 <= m < stops.len() && kept.len() < k < stops[m].len() && k <= all.len()
                    ==> all.skip(all.len() - k) != #[trigger] stops[m].take(k)
            &&& forall|m: int, k: int|
                0 <= m < filters.len() && kept.len() < k < filters[m].len() && k <= all.len()
                    ==> all.skip(all.len() - k) != #[trigger] filters[m].take(k)
            &&& kept.len() > 0 ==> (exists|m: int|
                0 <= m < stops.len() && kept.len() < (#[trigger] stops[m]).len() && stops[m].take(
                    kept.len() as int,
                ) == kept) || (exists|m: int|
                0 <= m < filters.len() && kept.len() < (#[trigger] filters[m]).len()
                    && filters[m].take(kept.len() as int) == kept)
        },
{
    if let Fed::Emit { out, held: kept } = fed(buf, stops, filters) {
        let all = elided_all(buf, filters);
        lemma_held_upto(all, stops, all.len() as int);
        lemma_held_upto(all, filters, all.len() as int);
        let (a, b) = (held(all, stops), held(all, filters));
        let h = kept.len() as int;
        assert(out + kept =~= all);
        assert forall|m: int, k: int|
            0 <= m < stops.len() && h < k < stops[m].len() && k <= all.len() implies all.skip(
            all.len() - k,
        ) != #[trigger] stops[m].take(k) by {
            let run = all.skip(all.len() - k);
            assert(!begins_mark(run, stops));
            assert(!text::is_prefix(run, stops[m]));
        }
        assert forall|m: int, k: int|
            0 <= m < filters.len() && h < k < filters[m].len() && k <= all.len() implies all.skip(
            all.len() - k,
        ) != #[trigger] filters[m].take(k) by {
            let run = all.skip(all.len() - k);
            assert(!begins_mark(run, filters));
            assert(!text::is_prefix(run, filters[m]));
        }
        if h > 0 {
            if a >= b {
                assert(begins_mark(kept, stops));
                let m = choose|m: int|
                    0 <= m < stops.len() && kept.len() < stops[m].len() && #[trigger] text::is_prefix(
                        kept,
                        stops[m],
                    );
                assert(stops[m].take(h) == kept);
            } else {
                assert(begins_mark(kept, filters));
                let m = choose|m: int|
                    0 <= m < filters.len() && kept.len() < filters[m].len()
                        && #[trigger] text::is_prefix(kept, filters[m]);
                assert(filters[m].take(h) == kept);
            }
        }
    }
}

/// Filtering takes every occurrence of a filter sequence out, one after the other
/// from the front, and leaves the rest: none is left, and a text without any
/// stays as it is.
pub proof fn law_filtering_takes_every_occurrence_out(before: Seq<char>, f: Seq<char>, after: Seq<char>)
    requires
        0 < f.len(),
        text::first_at(before + f + after, f, before.len() as int),
    ensures
        elided(before + f + after, f) == elided(before + after, f),
        !text::occurs(elided(before + f + after, f), f),
{
    let buf = before + f + after;
    let i = before.len() as int;
    let marks = seq![f];
    assert(text::occurs_at(buf, f, i));
    assert(text::occurs_at(buf, marks[0], i));
    assert forall|j: int| 0 <= j < i implies !any_at(buf, marks, j) by {
        if any_at(buf, marks, j) {
            let m = choose|m: int|
                0 <= m < marks.len() && #[trigger] text::occurs_at(buf, marks[m], j);
            assert(text::occurs_at(buf, f, j));
        }
    }
    lemma_first_mark_is(buf, marks, i);
    assert(buf.take(i) + buf.skip(i + f.len()) =~= before + after);
    lemma_elided_clean(buf, f);
}

proof fn lemma_elided_clean(buf: Seq<char>, f: Seq<char>)
    requires
        0 < f.len(),
    ensures
        !text::occurs(elided(buf, f), f),
    decreases buf.len(),
{
    let marks = seq![f];
    lemma_first_mark(buf, marks);
    match first_mark(buf, marks) {
        Some(i) => {
            let m = choose|m: int|
                0 <= m < marks.len() && #[trigger] text::occurs_at(buf, marks[m], i);
            assert(text::occurs_at(buf, f, i));
            lemma_elided_clean(buf.take(i) + buf.skip(i + f.len()), f);
        },
        None => {
            if text::occurs(buf, f) {
                let i = choose|i: int| text::occurs_at(buf, f, i);
                assert(text::occurs_at(buf, marks[0], i));
                assert(any_at(buf, marks, i));
            }
        },
    }
}

/// Text without a filter sequence is left alone, and filters are applied in their
/// order.
pub proof fn law_filters_are_applied_in_order(buf: Seq<char>, filters: Seq<Seq<char>>, f: Seq<char>)
    ensures
        !text::occurs(buf, f) ==> elided(buf, f) == buf,
        elided_all(buf, filters.push(f)) == elided(elided_all(buf, filters), f),
        elided_all(buf, Seq::empty()) == buf,
{
    assert(filters.push(f).drop_last() =~= filters);
    let marks = seq![f];
    if !text::occurs(buf, f) {
        lemma_first_mark(buf, marks);
        if let Some(i) = first_mark(buf, marks) {
            let m = choose|m: int|
                0 <= m < marks.len() && #[trigger] text::occurs_at(buf, marks[m], i);
            assert(text::occurs_at(buf, f, i));
        }
    }
}

/// Pieces make up their text one after the other, in order.
pub proof fn law_pieces_run_on(pieces: Seq<Seq<char>>, piece: Seq<char>)
    ensures
        whole(Seq::empty()) == Seq::<char>::empty(),
        whole(pieces.push(piece)) == whole(pieces) + piece,
{
    assert(pieces.push(piece).drop_last() =~= pieces);
}

} // verus!
