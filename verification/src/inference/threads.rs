//! How many threads to run inference on.
use crate::text;
use vstd::prelude::*;
use vstd::slice::slice_subrange;

verus! {

/// What has been read of the processor blocks: the fields of the current block,
/// and the distinct pairs of package and core seen so far.
#[verifier::ext_equal]
pub ghost struct Topology {
    pub package: Option<Seq<char>>,
    pub core: Option<Seq<char>>,
    pub seen: Seq<(Seq<char>, Seq<char>)>,
}

/// `seen` with a pair, once.
pub open spec fn noted(
    seen: Seq<(Seq<char>, Seq<char>)>,
    package: Option<Seq<char>>,
    core: Option<Seq<char>>,
) -> Seq<(Seq<char>, Seq<char>)> {
    match (package, core) {
        (Some(p), Some(c)) => if seen.contains((p, c)) {
            seen
        } else {
            seen.push((p, c))
        },
        _ => seen,
    }
}

/// One more line: a field of the current block, or the blank line that ends it.
pub open spec fn line_read(t: Topology, line: Seq<char>) -> Topology {
    let i = text::index_of(line, ':');
    if i < line.len() {
        let key = text::trimmed(line.take(i));
        let value = text::trimmed(line.skip(i + 1));
        if key == "physical id"@ {
            Topology { package: Some(value), ..t }
        } else if key == "core id"@ {
            Topology { core: Some(value), ..t }
        } else {
            t
        }
    } else if text::trimmed(line).len() == 0 {
        Topology { package: None, core: None, seen: noted(t.seen, t.package, t.core) }
    } else {
        t
    }
}

pub open spec fn lines_read(lines: Seq<Seq<char>>) -> Topology
    decreases lines.len(),
{
    if lines.len() == 0 {
        Topology { package: None, core: None, seen: Seq::empty() }
    } else {
        line_read(lines_read(lines.drop_last()), lines.last())
    }
}

/// The distinct pairs of package and core in a `/proc/cpuinfo` text. The last
/// block may go without a blank line.
pub open spec fn cores(cpuinfo: Seq<char>) -> Seq<(Seq<char>, Seq<char>)> {
    let t = lines_read(text::lines_of(cpuinfo));
    noted(t.seen, t.package, t.core)
}

pub open spec fn pair_views(v: Seq<(Vec<char>, Vec<char>)>) -> Seq<(Seq<char>, Seq<char>)> {
    v.map_values(|p: (Vec<char>, Vec<char>)| (p.0@, p.1@))
}

pub open spec fn opt_view(v: Option<Vec<char>>) -> Option<Seq<char>> {
    match v {
        Some(x) => Some(x@),
        None => None,
    }
}

fn note_pair(
    before: Vec<(Vec<char>, Vec<char>)>,
    package: Option<Vec<char>>,
    core: Option<Vec<char>>,
) -> (r: Vec<(Vec<char>, Vec<char>)>)
    ensures
        pair_views(r@) == noted(pair_views(before@), opt_view(package), opt_view(core)),
{
    let mut seen: Vec<(Vec<char>, Vec<char>)> = before;
    if let Some(p) = package {
        if let Some(c) = core {
            let ghost all = pair_views(seen@);
            let mut i: usize = 0;
            while i < seen.len()
                invariant
                    i <= seen@.len(),
                    all == pair_views(seen@),
                    all == pair_views(before@),
                    package == Some(p),
                    core == Some(c),
                    forall|j: int| 0 <= j < i ==> #[trigger] all[j] != (p@, c@),
                decreases seen.len() - i,
            {
                let same: bool = text::same_chars(&seen[i].0, &p) && text::same_chars(
                    &seen[i].1,
                    &c,
                );
                assert(all[i as int] == (seen@[i as int].0@, seen@[i as int].1@));
                if same {
                    assert(all.contains((p@, c@)));
                    return seen;
                }
                i = i + 1;
            }
            let ghost pv = p@;
            let ghost cv = c@;
            seen.push((p, c));
            assert(pair_views(seen@) =~= all.push((pv, cv)));
        }
    }
    seen
}

/// Count distinct `(physical id, core id)` pairs in `/proc/cpuinfo`. A text
/// without these fields, as some kernels write it, tells nothing.
pub fn parse_physical_cores(cpuinfo: &str) -> (r: Option<u32>)
    ensures
        r == if cores(cpuinfo@).len() == 0 {
            None::<u32>
        } else {
            Some(cores(cpuinfo@).len() as u32)
        },
{
    let chars: Vec<char> = text::to_chars(cpuinfo);
    let lines: Vec<Vec<char>> = text::lines(&chars);
    let ghost all = text::rows(lines@);
    let mut package: Option<Vec<char>> = None;
    let mut core: Option<Vec<char>> = None;
    let mut seen: Vec<(Vec<char>, Vec<char>)> = Vec::new();
    let mut i: usize = 0;
    assert(pair_views(seen@) =~= Seq::empty());
    assert(all.take(0) =~= Seq::empty());
    let physical_id: Vec<char> = text::to_chars("physical id");
    let core_id: Vec<char> = text::to_chars("core id");
    while i < lines.len()
        invariant
            i <= lines@.len(),
            all == text::rows(lines@),
            physical_id@ == "physical id"@,
            core_id@ == "core id"@,
            lines_read(all.take(i as int)) == (Topology {
                package: opt_view(package),
                core: opt_view(core),
                seen: pair_views(seen@),
            }),
        decreases lines.len() - i,
    {
        let line: &Vec<char> = &lines[i];
        let ghost before = lines_read(all.take(i as int));
        proof {
            assert(all.take(i + 1).drop_last() =~= all.take(i as int));
            assert(all.take(i + 1).last() == line@);
        }
        let at: usize = text::position(line, ':');
        if at < line.len() {
            let head: &[char] = slice_subrange(line, 0, at);
            let tail: &[char] = slice_subrange(line, at + 1, line.len());
            assert(head@ =~= line@.take(at as int));
            assert(tail@ =~= line@.skip(at + 1));
            let key: &[char] = text::trim(head);
            if text::same_chars(key, &physical_id) {
                package = Some(text::copy_chars(text::trim(tail)));
            } else if text::same_chars(key, &core_id) {
                core = Some(text::copy_chars(text::trim(tail)));
            }
        } else if text::trim(line).len() == 0 {
            seen = note_pair(seen, package, core);
            package = None;
            core = None;
        }
        i = i + 1;
    }
    assert(all.take(i as int) =~= all);
    let seen: Vec<(Vec<char>, Vec<char>)> = note_pair(seen, package, core);
    assert(pair_views(seen@) == cores(cpuinfo@));
    if seen.len() == 0 {
        None
    } else {
        Some(seen.len() as u32)
    }
}

/// How many threads to run inference on when the user did not say: one per
/// physical core, or else one per logical core, or else four. `cpuinfo` is the
/// text of `/proc/cpuinfo` and `logical` the number of logical cores, where the
/// platform tells.
pub fn default_thread_count(cpuinfo: Option<&str>, logical: Option<u32>) -> (r: u32)
    ensures
        r == (match cpuinfo {
            Some(t) if cores(t@).len() > 0 => cores(t@).len() as u32,
            _ => match logical {
                Some(n) => n,
                None => 4u32,
            },
        }),
{
    let physical: Option<u32> = match cpuinfo {
        Some(t) => parse_physical_cores(t),
        None => None,
    };
    match physical {
        Some(n) => n,
        None => match logical {
            Some(n) => n,
            None => 4,
        },
    }
}

/// No pair of package and core is counted twice.
pub proof fn law_cores_are_counted_once(cpuinfo: Seq<char>)
    ensures
        cores(cpuinfo).no_duplicates(),
{
    lemma_lines_read_distinct(text::lines_of(cpuinfo));
}

proof fn lemma_lines_read_distinct(lines: Seq<Seq<char>>)
    ensures
        lines_read(lines).seen.no_duplicates(),
    decreases lines.len(),
{
    if lines.len() > 0 {
        lemma_lines_read_distinct(lines.drop_last());
    }
}

/// A processor's block adds its core, once: the package and the core that it names
/// are counted at the blank line behind it, unless the pair was seen before.
pub proof fn law_a_block_adds_its_core(
    t: Topology,
    package: Seq<char>,
    core: Seq<char>,
)
    requires
        text::trimmed(package) == package,
        text::trimmed(core) == core,
    ensures
        ({
            let a = line_read(t, "physical id:"@ + package);
            let b = line_read(a, "core id:"@ + core);
            let c = line_read(b, Seq::empty());
            &&& c.seen.contains((package, core))
            &&& t.seen.contains((package, core)) ==> c.seen == t.seen
            &&& !t.seen.contains((package, core)) ==> c.seen == t.seen.push((package, core))
            &&& c.package is None && c.core is None
        }),
{
    reveal_strlit("physical id:");
    reveal_strlit("physical id");
    reveal_strlit("core id:");
    reveal_strlit("core id");
    assert("physical id"@.len() != "core id"@.len());
    let x = "physical id:"@ + package;
    let y = "core id:"@ + core;
    text::lemma_index_of_is(x, ':', 11);
    text::lemma_index_of_is(y, ':', 7);
    assert(x.take(11) =~= "physical id"@);
    assert(y.take(7) =~= "core id"@);
    assert(x.skip(12) =~= package);
    assert(y.skip(8) =~= core);
    let (p, q) = ("physical id"@, "core id"@);
    assert(text::trimmed_start(p) == p && text::trimmed_end(p) == p) by {
        assert(p[0] == 'p' && p[10] == 'd');
    }
    assert(text::trimmed_start(q) == q && text::trimmed_end(q) == q) by {
        assert(q[0] == 'c' && q[6] == 'd');
    }
    let none = Seq::<char>::empty();
    text::lemma_index_of_is(none, ':', 0);
    let a = line_read(t, x);
    let b = line_read(a, y);
    let c = line_read(b, none);
    assert(b.package == Some(package) && b.core == Some(core) && b.seen == t.seen);
    if !t.seen.contains((package, core)) {
        assert(c.seen[t.seen.len() as int] == (package, core));
    }
}

proof fn lemma_noted_once(
    seen: Seq<(Seq<char>, Seq<char>)>,
    package: Option<Seq<char>>,
    core: Option<Seq<char>>,
)
    requires
        seen.no_duplicates(),
    ensures
        noted(seen, package, core).no_duplicates(),
{
}

proof fn lemma_seen_once(lines: Seq<Seq<char>>)
    ensures
        lines_read(lines).seen.no_duplicates(),
    decreases lines.len(),
{
    if lines.len() > 0 {
        lemma_seen_once(lines.drop_last());
        let t = lines_read(lines.drop_last());
        lemma_noted_once(t.seen, t.package, t.core);
    }
}

/// A core counts once, however many logical processors it shows as.
pub proof fn law_no_core_counts_twice(cpuinfo: Seq<char>)
    ensures
        cores(cpuinfo).no_duplicates(),
{
    let t = lines_read(text::lines_of(cpuinfo));
    lemma_seen_once(text::lines_of(cpuinfo));
    lemma_noted_once(t.seen, t.package, t.core);
}

} // verus!
