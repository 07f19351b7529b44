//! Statement boundaries of a function: where each source line starts, and how many bytes it owns.
use vstd::prelude::*;

verus! {

/// One record of a line program: where it applies, if that address maps into the image, the
/// source line it names, and the raw name of the file of that line, where it could be read.
pub struct LineRecord {
    pub rva: Option<u32>,
    pub line: u32,
    pub file: Option<Vec<u8>>,
}

/// `t`, kept in the order of its keys, with `x` put in unless its key is there already.
pub open spec fn with_new_key(t: Seq<(u32, u32)>, x: (u32, u32)) -> Seq<(u32, u32)>
    decreases t.len(),
{
    if t.len() == 0 {
        seq![x]
    } else if t.last().0 < x.0 {
        t.push(x)
    } else if t.last().0 == x.0 {
        t
    } else {
        with_new_key(t.drop_last(), x).push(t.last())
    }
}

/// `s` sorted by key, with the first pair of each key kept and the later ones dropped.
pub open spec fn first_by_key(s: Seq<(u32, u32)>) -> Seq<(u32, u32)>
    decreases s.len(),
{
    if s.len() == 0 {
        seq![]
    } else {
        with_new_key(first_by_key(s.drop_last()), s.last())
    }
}

/// Keys grow strictly from pair to pair.
pub open spec fn increasing(s: Seq<(u32, u32)>) -> bool {
    forall|i: int, j: int| 0 <= i < j < s.len() ==> s[i].0 < s[j].0
}

/// The pair at `j` is the first of its key.
pub open spec fn is_first(s: Seq<(u32, u32)>, j: int) -> bool {
    &&& 0 <= j < s.len()
    &&& forall|k: int| 0 <= k < j ==> s[k].0 != s[j].0
}

proof fn lemma_insert_before(t: Seq<(u32, u32)>, x: (u32, u32), i: int)
    requires
        0 <= i <= t.len(),
        forall|j: int| i <= j < t.len() ==> t[j].0 > x.0,
    ensures
        with_new_key(t, x) == with_new_key(t.take(i), x) + t.skip(i),
    decreases t.len(),
{
    if i == t.len() {
        assert(t.take(i) == t);
        assert(t.skip(i).len() == 0);
        assert(with_new_key(t, x) + t.skip(i) == with_new_key(t, x));
    } else {
        assert(t.last() == t[t.len() - 1]);
        lemma_insert_before(t.drop_last(), x, i);
        assert(t.drop_last().take(i) == t.take(i));
        assert(t.skip(i) == t.drop_last().skip(i).push(t.last()));
        assert(with_new_key(t, x) == with_new_key(t.take(i), x) + t.skip(i));
    }
}

/// Puts `x` into `v`, which is in the order of its keys, unless its key is there already.
fn insert_new(v: &mut Vec<(u32, u32)>, x: (u32, u32))
    ensures
        final(v)@ == with_new_key(old(v)@, x),
{
    let mut i: usize = v.len();
    while i > 0 && v[i - 1].0 > x.0
        invariant
            v@ == old(v)@,
            i <= v.len(),
            forall|j: int| i <= j < v.len() ==> v@[j].0 > x.0,
        decreases i,
    {
        i = i - 1;
    }
    proof {
        lemma_insert_before(v@, x, i as int);
        if i > 0 {
            assert(v@.take(i as int).last() == v@[i - 1]);
        }
    }
    if i > 0 && v[i - 1].0 == x.0 {
        assert(v@.take(i as int) + v@.skip(i as int) == v@);
    } else {
        let ghost before = v@;
        v.insert(i, x);
        assert(v@ == before.take(i as int).push(x) + before.skip(i as int));
        assert(before.take(i as int).len() == 0 ==> before.take(i as int).push(x) == seq![x]);
    }
}

/// Sorts by key and keeps the first pair of each key.
pub fn sort_first_by_key(items: &Vec<(u32, u32)>) -> (r: Vec<(u32, u32)>)
    ensures
        r@ == first_by_key(items@),
{
    let mut r: Vec<(u32, u32)> = Vec::new();
    let mut i: usize = 0;
    while i < items.len()
        invariant
            i <= items.len(),
            r@ == first_by_key(items@.take(i as int)),
        decreases items.len() - i,
    {
        insert_new(&mut r, items[i]);
        i = i + 1;
        assert(items@.take(i as int).drop_last() == items@.take(i - 1));
    }
    assert(items@.take(i as int) == items@);
    r
}

/// A copy of a list of pairs.
pub(crate) fn copy_pairs(v: &Vec<(u32, u32)>) -> (r: Vec<(u32, u32)>)
    ensures
        r@ == v@,
{
    let mut r: Vec<(u32, u32)> = Vec::new();
    let mut i: usize = 0;
    while i < v.len()
        invariant
            i <= v.len(),
            r@ == v@.take(i as int),
        decreases v.len() - i,
    {
        r.push(v[i]);
        i = i + 1;
        assert(v@.take(i as int) == v@.take(i - 1).push(v@[i - 1]));
    }
    assert(v@.take(i as int) == v@);
    r
}

proof fn lemma_with_new_key(t: Seq<(u32, u32)>, x: (u32, u32))
    requires
        increasing(t),
    ensures
        increasing(with_new_key(t, x)),
        forall|p: (u32, u32)| #[trigger]
            with_new_key(t, x).contains(p) <==> t.contains(p) || (p == x && forall|i: int|
                0 <= i < t.len() ==> t[i].0 != x.0),
    decreases t.len(),
{
    let r = with_new_key(t, x);
    if t.len() == 0 {
        assert(r[0] == x);
    } else if t.last().0 < x.0 {
        assert(r[t.len() as int] == x);
        assert forall|p: (u32, u32)| t.contains(p) implies #[trigger] r.contains(p) by {
            let i = choose|i: int| 0 <= i < t.len() && t[i] == p;
            assert(r[i] == p);
        }
    } else if t.last().0 == x.0 {
        assert(t[t.len() - 1].0 == x.0);
    } else {
        let d = t.drop_last();
        let rd = with_new_key(d, x);
        lemma_with_new_key(d, x);
        assert forall|p: (u32, u32)| #[trigger] r.contains(p) <==> t.contains(p) || (p == x
            && forall|i: int| 0 <= i < t.len() ==> t[i].0 != x.0) by {
            if r.contains(p) {
                let i = choose|i: int| 0 <= i < r.len() && r[i] == p;
                if i == r.len() - 1 {
                    assert(t[t.len() - 1] == p);
                } else {
                    assert(rd[i] == p);
                    assert(rd.contains(p));
                    if d.contains(p) {
                        let k = choose|k: int| 0 <= k < d.len() && d[k] == p;
                        assert(t[k] == p);
                    }
                    if p == x && !d.contains(p) {
                        assert forall|i: int| 0 <= i < t.len() implies t[i].0 != x.0 by {
                            if i < d.len() {
                                assert(d[i] == t[i]);
                            }
                        }
                    }
                }
            }
            if t.contains(p) {
                let i = choose|i: int| 0 <= i < t.len() && t[i] == p;
                if i == t.len() - 1 {
                    assert(r[r.len() - 1] == p);
                } else {
                    assert(d[i] == p);
                    assert(rd.contains(p));
                    let k = choose|k: int| 0 <= k < rd.len() && rd[k] == p;
                    assert(r[k] == p);
                }
            } else if p == x && forall|i: int| 0 <= i < t.len() ==> t[i].0 != x.0 {
                assert forall|i: int| 0 <= i < d.len() implies d[i].0 != x.0 by {
                    assert(d[i] == t[i]);
                }
                assert(rd.contains(p));
                let k = choose|k: int| 0 <= k < rd.len() && rd[k] == p;
                assert(r[k] == p);
            }
        }
        assert forall|i: int, j: int| 0 <= i < j < r.len() implies r[i].0 < r[j].0 by {
            if j == r.len() - 1 {
                assert(rd.contains(rd[i]));
                if d.contains(rd[i]) {
                    let k = choose|k: int| 0 <= k < d.len() && d[k] == rd[i];
                    assert(t[k] == rd[i]);
                }
            }
        }
    }
}

/// Sorting and keeping the first of each key gives exactly the pairs that are the first of
/// their key, in strictly growing order of the keys.
#[verifier::spinoff_prover]
#[verifier::rlimit(40)]
pub proof fn law_first_by_key(s: Seq<(u32, u32)>)
    ensures
        increasing(first_by_key(s)),
        forall|j: int| is_first(s, j) ==> first_by_key(s).contains(#[trigger] s[j]),
        forall|p: (u32, u32)| #[trigger]
            first_by_key(s).contains(p) ==> exists|j: int| #[trigger] is_first(s, j) && s[j] == p,
    decreases s.len(),
{
    if s.len() > 0 {
        let d = s.drop_last();
        let t = first_by_key(d);
        let r = first_by_key(s);
        let x = s.last();
        law_first_by_key(d);
        lemma_with_new_key(t, x);
        assert forall|j: int| is_first(s, j) implies r.contains(#[trigger] s[j]) by {
            if j < d.len() {
                assert(d[j] == s[j]);
                assert forall|k: int| 0 <= k < j implies d[k].0 != d[j].0 by {
                    assert(d[k] == s[k]);
                }
                assert(is_first(d, j));
                assert(t.contains(d[j]));
            } else {
                assert forall|i: int| 0 <= i < t.len() implies t[i].0 != x.0 by {
                    assert(t.contains(t[i]));
                    let k = choose|k: int| #[trigger] is_first(d, k) && d[k] == t[i];
                    assert(s[k] == d[k]);
                }
            }
        }
        assert forall|p: (u32, u32)| #[trigger] r.contains(p) implies exists|j: int| #[trigger]
            is_first(s, j) && s[j] == p by {
            if t.contains(p) {
                let k = choose|k: int| #[trigger] is_first(d, k) && d[k] == p;
                assert forall|m: int| 0 <= m < k implies s[m].0 != s[k].0 by {
                    assert(d[m] == s[m]);
                }
                assert(is_first(s, k) && s[k] == p);
            } else {
                let n = s.len() - 1;
                assert(s[n] == x);
                assert forall|m: int| 0 <= m < n implies s[m].0 != s[n].0 by {
                    assert(d[m] == s[m]);
                    lemma_key_present(d, m);
                    let i = choose|i: int| 0 <= i < t.len() && t[i].0 == d[m].0;
                    assert(t[i].0 != x.0);
                }
                assert(is_first(s, n) && s[n] == p);
            }
        }
    }
}

/// Every key of `s` occurs in the result.
proof fn lemma_key_present(s: Seq<(u32, u32)>, m: int)
    requires
        0 <= m < s.len(),
    ensures
        exists|i: int| 0 <= i < first_by_key(s).len() && (#[trigger] first_by_key(s)[i]).0 == s[m].0,
    decreases s.len(),
{
    let d = s.drop_last();
    let t = first_by_key(d);
    let r = first_by_key(s);
    law_first_by_key(d);
    lemma_with_new_key(t, s.last());
    if m < d.len() {
        lemma_key_present(d, m);
        let i = choose|i: int| 0 <= i < t.len() && (#[trigger] t[i]).0 == d[m].0;
        assert(t.contains(t[i]));
        assert(r.contains(t[i]));
        let k = choose|k: int| 0 <= k < r.len() && r[k] == t[i];
        assert(r[k].0 == s[m].0);
    } else if exists|i: int| 0 <= i < t.len() && (#[trigger] t[i]).0 == s.last().0 {
        let i = choose|i: int| 0 <= i < t.len() && (#[trigger] t[i]).0 == s.last().0;
        assert(t.contains(t[i]));
        assert(r.contains(t[i]));
        let k = choose|k: int| 0 <= k < r.len() && r[k] == t[i];
        assert(r[k].0 == s[m].0);
    } else {
        assert(r.contains(s.last()));
        let k = choose|k: int| 0 <= k < r.len() && r[k] == s.last();
        assert(r[k].0 == s[m].0);
    }
}

/// The records that map into the image, as pairs of address and line.
pub open spec fn placed(lines: Seq<LineRecord>) -> Seq<(u32, u32)>
    decreases lines.len(),
{
    if lines.len() == 0 {
        seq![]
    } else {
        match lines.last().rva {
            Some(rva) => placed(lines.drop_last()).push((rva, lines.last().line)),
            None => placed(lines.drop_last()),
        }
    }
}

/// The statements of a function: address and line of the first record at each address, in
/// the order of the addresses.
pub open spec fn statements(lines: Seq<LineRecord>) -> Seq<(u32, u32)> {
    first_by_key(placed(lines))
}

/// Turns the line records of a function into its statements.
pub fn collect_statements(lines: &Vec<LineRecord>) -> (r: Vec<(u32, u32)>)
    ensures
        r@ == statements(lines@),
{
    let mut found: Vec<(u32, u32)> = Vec::new();
    let mut i: usize = 0;
    while i < lines.len()
        invariant
            i <= lines.len(),
            found@ == placed(lines@.take(i as int)),
        decreases lines.len() - i,
    {
        let record: &LineRecord = &lines[i];
        if let Some(rva) = record.rva {
            found.push((rva, record.line));
        }
        i = i + 1;
        assert(lines@.take(i as int).drop_last() == lines@.take(i - 1));
    }
    assert(lines@.take(i as int) == lines@);
    sort_first_by_key(&found)
}

/// The statements that lie in the function, as offsets from its start.
pub open spec fn offsets_in(stmts: Seq<(u32, u32)>, func_rva: u32, size: u32) -> Seq<(u32, u32)>
    decreases stmts.len(),
{
    if stmts.len() == 0 {
        seq![]
    } else {
        let rest = offsets_in(stmts.drop_last(), func_rva, size);
        let (rva, line) = stmts.last();
        if func_rva <= rva && rva - func_rva < size {
            rest.push(((rva - func_rva) as u32, line))
        } else {
            rest
        }
    }
}

/// The offsets with the first one moved to the function's start; without any, one statement
/// of no line that starts there.
pub open spec fn opened(offsets: Seq<(u32, u32)>) -> Seq<(u32, u32)> {
    if offsets.len() == 0 {
        seq![(0u32, 0u32)]
    } else {
        offsets.update(0, (0u32, offsets[0].1))
    }
}

/// Where the statements of a function start and which lines they come from.
pub open spec fn starts(stmts: Seq<(u32, u32)>, func_rva: u32, size: u32) -> Seq<(u32, u32)> {
    first_by_key(opened(offsets_in(stmts, func_rva, size)))
}

/// Where the statement after `g` starts, or where the function ends.
pub open spec fn end_of(starts: Seq<(u32, u32)>, g: int, size: u32) -> u32 {
    if g + 1 < starts.len() {
        starts[g + 1].0
    } else {
        size
    }
}

/// How many bytes the statement `g` owns.
pub open spec fn size_of(starts: Seq<(u32, u32)>, g: int, size: u32) -> u32 {
    if starts[g].0 <= end_of(starts, g, size) {
        (end_of(starts, g, size) - starts[g].0) as u32
    } else {
        0
    }
}

/// Computes where the statements of a function start: the first of them at its start, so
/// that the code before the first line belongs to it.
pub fn statement_starts(stmts: &Vec<(u32, u32)>, func_rva: u32, size: u32) -> (r: Vec<(u32, u32)>)
    ensures
        r@ == starts(stmts@, func_rva, size),
{
    let mut offsets: Vec<(u32, u32)> = Vec::new();
    let mut i: usize = 0;
    while i < stmts.len()
        invariant
            i <= stmts.len(),
            offsets@ == offsets_in(stmts@.take(i as int), func_rva, size),
        decreases stmts.len() - i,
    {
        let (rva, line) = stmts[i];
        if rva >= func_rva && rva - func_rva < size {
            offsets.push((rva - func_rva, line));
        }
        i = i + 1;
        assert(stmts@.take(i as int).drop_last() == stmts@.take(i - 1));
    }
    assert(stmts@.take(i as int) == stmts@);
    if offsets.len() == 0 {
        offsets.push((0, 0));
        assert(offsets@ == seq![(0u32, 0u32)]);
    } else {
        let line: u32 = offsets[0].1;
        offsets.set(0, (0, line));
    }
    sort_first_by_key(&offsets)
}

proof fn lemma_offsets_in(stmts: Seq<(u32, u32)>, func_rva: u32, size: u32)
    ensures
        forall|i: int|
            0 <= i < offsets_in(stmts, func_rva, size).len() ==> (#[trigger] offsets_in(
                stmts,
                func_rva,
                size,
            )[i]).0 < size,
    decreases stmts.len(),
{
    if stmts.len() > 0 {
        lemma_offsets_in(stmts.drop_last(), func_rva, size);
        let rest = offsets_in(stmts.drop_last(), func_rva, size);
        let all = offsets_in(stmts, func_rva, size);
        assert forall|i: int| 0 <= i < all.len() implies (#[trigger] all[i]).0 < size by {
            if i < rest.len() {
                assert(all[i] == rest[i]);
            }
        }
    }
}

/// The first statement of a function starts at its first byte, and the others start inside
/// it, each behind the one before.
pub proof fn law_starts(stmts: Seq<(u32, u32)>, func_rva: u32, size: u32)
    ensures
        starts(stmts, func_rva, size).len() > 0,
        starts(stmts, func_rva, size)[0].0 == 0,
        increasing(starts(stmts, func_rva, size)),
        forall|g: int|
            0 < g < starts(stmts, func_rva, size).len() ==> (#[trigger] starts(
                stmts,
                func_rva,
                size,
            )[g]).0 < size,
{
    let offsets = offsets_in(stmts, func_rva, size);
    let o = opened(offsets);
    let r = starts(stmts, func_rva, size);
    lemma_offsets_in(stmts, func_rva, size);
    law_first_by_key(o);
    assert(o[0].0 == 0);
    assert(is_first(o, 0));
    assert(r.contains(o[0]));
    let i = choose|i: int| 0 <= i < r.len() && r[i] == o[0];
    assert(i == 0) by {
        if i > 0 {
            assert(r[0].0 < r[i].0);
        }
    }
    assert forall|g: int| 0 < g < r.len() implies (#[trigger] r[g]).0 < size by {
        assert(r.contains(r[g]));
        let j = choose|j: int| #[trigger] is_first(o, j) && o[j] == r[g];
        assert(r[0].0 < r[g].0);
        assert(j > 0);
        assert(o[j] == offsets[j]);
    }
}

/// The bytes that the first `k` statements own.
pub open spec fn bytes_owned(starts: Seq<(u32, u32)>, k: int, size: u32) -> int
    decreases k,
{
    if k <= 0 {
        0
    } else {
        bytes_owned(starts, k - 1, size) + size_of(starts, k - 1, size)
    }
}

proof fn lemma_bytes_owned(starts: Seq<(u32, u32)>, k: int, size: u32)
    requires
        increasing(starts),
        starts.len() > 0,
        starts[0].0 == 0,
        forall|g: int| 0 < g < starts.len() ==> (#[trigger] starts[g]).0 < size,
        0 <= k <= starts.len(),
    ensures
        k < starts.len() ==> bytes_owned(starts, k, size) == starts[k].0,
        k == starts.len() ==> bytes_owned(starts, k, size) == size,
    decreases k,
{
    if k > 0 {
        lemma_bytes_owned(starts, k - 1, size);
        if k < starts.len() {
            assert(starts[k - 1].0 < starts[k].0);
        }
    }
}

/// The statements of a function together own every byte of it: their sizes add up to its
/// size.
pub proof fn law_statement_sizes(stmts: Seq<(u32, u32)>, func_rva: u32, size: u32)
    ensures
        bytes_owned(
            starts(stmts, func_rva, size),
            starts(stmts, func_rva, size).len() as int,
            size,
        ) == size,
{
    law_starts(stmts, func_rva, size);
    let r = starts(stmts, func_rva, size);
    lemma_bytes_owned(r, r.len() as int, size);
}

/// Every offset inside a function belongs to exactly one of its statements.
pub proof fn law_one_owner(stmts: Seq<(u32, u32)>, func_rva: u32, size: u32, offset: u32)
    requires
        offset < size,
    ensures
        exists|g: int| owns(starts(stmts, func_rva, size), g, size, offset),
        forall|g: int, h: int|
            owns(starts(stmts, func_rva, size), g, size, offset) && owns(
                starts(stmts, func_rva, size),
                h,
                size,
                offset,
            ) ==> g == h,
{
    law_starts(stmts, func_rva, size);
    let r = starts(stmts, func_rva, size);
    lemma_owner_exists(r, r.len() as int, size, offset);
    assert forall|g: int, h: int|
        owns(r, g, size, offset) && owns(r, h, size, offset) implies g == h by {
        if g < h {
            assert(g + 1 == h || r[g + 1].0 < r[h].0);
        }
        if h < g {
            assert(h + 1 == g || r[h + 1].0 < r[g].0);
        }
    }
}

/// The statement `g` owns the byte at `offset`.
pub open spec fn owns(starts: Seq<(u32, u32)>, g: int, size: u32, offset: u32) -> bool {
    &&& 0 <= g < starts.len()
    &&& starts[g].0 <= offset < end_of(starts, g, size)
}

proof fn lemma_owner_exists(starts: Seq<(u32, u32)>, k: int, size: u32, offset: u32)
    requires
        0 < k <= starts.len(),
        starts[0].0 == 0,
        offset < (if k < starts.len() {
            starts[k].0
        } else {
            size
        }),
    ensures
        exists|g: int| owns(starts, g, size, offset),
    decreases k,
{
    if starts[k - 1].0 <= offset {
        assert(owns(starts, k - 1, size, offset));
    } else {
        lemma_owner_exists(starts, k - 1, size, offset);
    }
}

proof fn lemma_sorted_stays(s: Seq<(u32, u32)>)
    requires
        forall|i: int, j: int| 0 <= i < j < s.len() ==> s[i].0 < s[j].0,
    ensures
        first_by_key(s) == s,
    decreases s.len(),
{
    if s.len() > 0 {
        let d = s.drop_last();
        lemma_sorted_stays(d);
        if d.len() > 0 {
            assert(s[d.len() - 1].0 < s[d.len() as int].0);
        }
        assert(d.push(s.last()) == s);
        assert(d.len() == 0 ==> seq![s.last()] == s);
    }
}

proof fn lemma_offsets_between(
    stmts: Seq<(u32, u32)>,
    func_rva: u32,
    size: u32,
    first: int,
    end: int,
)
    requires
        0 <= first <= end <= stmts.len(),
        forall|i: int|
            0 <= i < stmts.len() ==> ((first <= i < end) <==> (func_rva <= (#[trigger] stmts[i]).0
                < func_rva + size)),
    ensures
        offsets_in(stmts, func_rva, size) == Seq::new(
            (end - first) as nat,
            |g: int| ((stmts[first + g].0 - func_rva) as u32, stmts[first + g].1),
        ),
    decreases stmts.len(),
{
    if stmts.len() > 0 {
        let d = stmts.drop_last();
        let n = d.len() as int;
        let e = if end > n {
            n
        } else {
            end
        };
        let f = if first > n {
            n
        } else {
            first
        };
        assert forall|i: int| 0 <= i < d.len() implies ((f <= i < e) <==> (func_rva
            <= (#[trigger] d[i]).0 < func_rva + size)) by {
            assert(d[i] == stmts[i]);
        }
        lemma_offsets_between(d, func_rva, size, f, e);
        assert((first <= n < end) <==> (func_rva <= stmts[n].0 < func_rva + size));
        let all = offsets_in(stmts, func_rva, size);
        assert(all == Seq::new(
            (end - first) as nat,
            |g: int| ((stmts[first + g].0 - func_rva) as u32, stmts[first + g].1),
        ));
    }
}

/// Every statement inside the function starts a group of its own, whatever its line: of
/// statements in the order of their addresses, of which those from `first` up to `end` lie in
/// the function, the start `g` is the statement `first + g`, with its line and its offset, but
/// for the first, which starts with the function. There are no other starts.
pub proof fn law_every_statement_starts(
    stmts: Seq<(u32, u32)>,
    func_rva: u32,
    size: u32,
    first: int,
    end: int,
)
    requires
        forall|i: int, j: int| 0 <= i < j < stmts.len() ==> stmts[i].0 < stmts[j].0,
        0 <= first < end <= stmts.len(),
        forall|i: int|
            0 <= i < stmts.len() ==> ((first <= i < end) <==> (func_rva <= (#[trigger] stmts[i]).0
                < func_rva + size)),
    ensures
        starts(stmts, func_rva, size).len() == end - first,
        starts(stmts, func_rva, size)[0] == (0u32, stmts[first].1),
        forall|g: int|
            0 < g < end - first ==> {
                let start = #[trigger] starts(stmts, func_rva, size)[g];
                start.0 == stmts[first + g].0 - func_rva && start.1 == stmts[first + g].1
            },
{
    lemma_offsets_between(stmts, func_rva, size, first, end);
    let o = opened(offsets_in(stmts, func_rva, size));
    assert forall|i: int, j: int| 0 <= i < j < o.len() implies o[i].0 < o[j].0 by {
        assert(stmts[first + i].0 < stmts[first + j].0);
        assert(func_rva <= stmts[first + i].0 < func_rva + size);
        assert(func_rva <= stmts[first + j].0 < func_rva + size);
    }
    lemma_sorted_stays(o);
    assert forall|g: int| 0 < g < end - first implies {
        let start = #[trigger] starts(stmts, func_rva, size)[g];
        start.0 == stmts[first + g].0 - func_rva && start.1 == stmts[first + g].1
    } by {
        assert(func_rva <= stmts[first + g].0 < func_rva + size);
        assert(o[g] == ((stmts[first + g].0 - func_rva) as u32, stmts[first + g].1));
    }
}

/// A function without statements inside it is one group of no line.
pub proof fn law_no_statement_inside(stmts: Seq<(u32, u32)>, func_rva: u32, size: u32)
    requires
        forall|i: int|
            0 <= i < stmts.len() ==> !(func_rva <= (#[trigger] stmts[i]).0 < func_rva + size),
    ensures
        starts(stmts, func_rva, size) == seq![(0u32, 0u32)],
{
    lemma_offsets_between(stmts, func_rva, size, 0, 0);
    lemma_sorted_stays(seq![(0u32, 0u32)]);
    assert(opened(offsets_in(stmts, func_rva, size)) == seq![(0u32, 0u32)]);
}

proof fn lemma_placed(lines: Seq<LineRecord>)
    ensures
        forall|k: int|
            0 <= k < lines.len() && (#[trigger] lines[k]).rva is Some ==> exists|m: int|
                0 <= m < placed(lines).len() && #[trigger] placed(lines)[m] == (
                    lines[k].rva->0,
                    lines[k].line,
                ) && placed_from(lines, m) == k,
        forall|m: int|
            0 <= m < placed(lines).len() ==> 0 <= #[trigger] placed_from(lines, m) < lines.len()
                && lines[placed_from(lines, m)].rva == Some(placed(lines)[m].0)
                && lines[placed_from(lines, m)].line == placed(lines)[m].1,
        forall|m: int, n: int|
            0 <= m < n < placed(lines).len() ==> #[trigger] placed_from(lines, m)
                < #[trigger] placed_from(lines, n),
    decreases lines.len(),
{
    if lines.len() > 0 {
        let d = lines.drop_last();
        let last = lines.len() - 1;
        let before = placed(d);
        let after = placed(lines);
        lemma_placed(d);
        assert forall|m: int| 0 <= m < before.len() implies after[m] == before[m] && placed_from(
            lines,
            m,
        ) == #[trigger] placed_from(d, m) by {}
        assert forall|k: int| 0 <= k < lines.len() && (#[trigger] lines[k]).rva is Some implies exists|
            m: int,
        |
            0 <= m < after.len() && #[trigger] after[m] == (lines[k].rva->0, lines[k].line)
                && placed_from(lines, m) == k by {
            if k < last {
                assert(d[k] == lines[k]);
                let m = choose|m: int|
                    0 <= m < before.len() && #[trigger] before[m] == (d[k].rva->0, d[k].line)
                        && placed_from(d, m) == k;
                assert(after[m] == before[m]);
            } else {
                assert(after[before.len() as int] == (lines[k].rva->0, lines[k].line));
            }
        }
        assert forall|m: int| 0 <= m < after.len() implies 0 <= #[trigger] placed_from(lines, m)
            < lines.len() && lines[placed_from(lines, m)].rva == Some(after[m].0)
            && lines[placed_from(lines, m)].line == after[m].1 by {
            if m < before.len() {
                let k = placed_from(d, m);
                assert(d[k] == lines[k]);
            }
        }
        assert forall|m: int, n: int| 0 <= m < n < after.len() implies #[trigger] placed_from(
            lines,
            m,
        ) < #[trigger] placed_from(lines, n) by {
            if n < before.len() {
                assert(placed_from(d, m) < placed_from(d, n));
            }
            if m < before.len() {
                assert(placed_from(d, m) < d.len());
            }
        }
    }
}

/// The line record that the placed pair `m` comes from.
spec fn placed_from(lines: Seq<LineRecord>, m: int) -> int
    decreases lines.len(),
{
    if lines.len() == 0 || m < placed(lines.drop_last()).len() {
        if lines.len() == 0 {
            0
        } else {
            placed_from(lines.drop_last(), m)
        }
    } else {
        lines.len() - 1
    }
}

/// The statements of a function are its line records that map to an address, one for each
/// address, in the order of the addresses: each has the line of the first record of its
/// address, and no address of a record is missing.
pub proof fn law_statements(lines: Seq<LineRecord>)
    ensures
        forall|i: int, j: int|
            0 <= i < j < statements(lines).len() ==> (#[trigger] statements(lines)[i]).0 < (
            #[trigger] statements(lines)[j]).0,
        forall|k: int|
            0 <= k < lines.len() && (#[trigger] lines[k]).rva is Some && (forall|l: int|
                0 <= l < k ==> (#[trigger] lines[l]).rva != lines[k].rva) ==> statements(
                lines,
            ).contains((lines[k].rva->0, lines[k].line)),
        forall|p: (u32, u32)| #[trigger]
            statements(lines).contains(p) ==> exists|k: int|
                0 <= k < lines.len() && (#[trigger] lines[k]).rva == Some(p.0) && lines[k].line
                    == p.1 && (forall|l: int|
                    0 <= l < k ==> (#[trigger] lines[l]).rva != lines[k].rva),
{
    let s = placed(lines);
    let r = statements(lines);
    lemma_placed(lines);
    law_first_by_key(s);
    assert forall|i: int, j: int| 0 <= i < j < r.len() implies (#[trigger] r[i]).0 < (
    #[trigger] r[j]).0 by {}
    assert forall|k: int|
        0 <= k < lines.len() && (#[trigger] lines[k]).rva is Some && (forall|l: int|
            0 <= l < k ==> (#[trigger] lines[l]).rva != lines[k].rva) implies r.contains(
        (lines[k].rva->0, lines[k].line),
    ) by {
        let m = choose|m: int|
            0 <= m < s.len() && #[trigger] s[m] == (lines[k].rva->0, lines[k].line) && placed_from(
                lines,
                m,
            ) == k;
        assert forall|n: int| 0 <= n < m implies s[n].0 != s[m].0 by {
            let l = placed_from(lines, n);
            assert(l < placed_from(lines, m));
            assert(lines[l].rva != lines[k].rva);
        }
        assert(is_first(s, m));
        assert(r.contains(s[m]));
    }
    assert forall|p: (u32, u32)| #[trigger] r.contains(p) implies exists|k: int|
        0 <= k < lines.len() && (#[trigger] lines[k]).rva == Some(p.0) && lines[k].line == p.1 && (
        forall|l: int| 0 <= l < k ==> (#[trigger] lines[l]).rva != lines[k].rva) by {
        let m = choose|m: int| #[trigger] is_first(s, m) && s[m] == p;
        let k = placed_from(lines, m);
        assert(lines[k].rva == Some(p.0));
        assert forall|l: int| 0 <= l < k implies (#[trigger] lines[l]).rva != lines[k].rva by {
            if lines[l].rva == lines[k].rva {
                let n = choose|n: int|
                    0 <= n < s.len() && #[trigger] s[n] == (lines[l].rva->0, lines[l].line)
                        && placed_from(lines, n) == l;
                if n >= m {
                    if n > m {
                        assert(placed_from(lines, m) < placed_from(lines, n));
                    }
                }
                assert(s[n].0 != s[m].0);
            }
        }
    }
}

/// The bytes of a statement are those from its start up to the start of the next one, or up to
/// the end of the function.
pub proof fn law_statement_size(stmts: Seq<(u32, u32)>, func_rva: u32, size: u32, g: int)
    requires
        0 <= g < starts(stmts, func_rva, size).len(),
    ensures
        size_of(starts(stmts, func_rva, size), g, size) == if g + 1 < starts(
            stmts,
            func_rva,
            size,
        ).len() {
            starts(stmts, func_rva, size)[g + 1].0 - starts(stmts, func_rva, size)[g].0
        } else {
            size - starts(stmts, func_rva, size)[g].0
        },
        forall|offset: u32|
            owns(starts(stmts, func_rva, size), g, size, offset) <==> {
                &&& starts(stmts, func_rva, size)[g].0 <= offset
                &&& g + 1 < starts(stmts, func_rva, size).len() ==> offset < starts(
                    stmts,
                    func_rva,
                    size,
                )[g + 1].0
                &&& g + 1 == starts(stmts, func_rva, size).len() ==> offset < size
            },
{
    law_starts(stmts, func_rva, size);
    let r = starts(stmts, func_rva, size);
    if g + 1 < r.len() {
        assert(r[g].0 < r[g + 1].0);
    }
}

/// The statement that the offset `m` comes from.
spec fn offset_from(stmts: Seq<(u32, u32)>, func_rva: u32, size: u32, m: int) -> int
    decreases stmts.len(),
{
    if stmts.len() == 0 {
        0
    } else if m < offsets_in(stmts.drop_last(), func_rva, size).len() {
        offset_from(stmts.drop_last(), func_rva, size, m)
    } else {
        stmts.len() - 1
    }
}

proof fn lemma_offset_from(stmts: Seq<(u32, u32)>, func_rva: u32, size: u32)
    ensures
        forall|k: int|
            0 <= k < stmts.len() && func_rva <= (#[trigger] stmts[k]).0 < func_rva + size
                ==> exists|m: int|
                0 <= m < offsets_in(stmts, func_rva, size).len() && #[trigger] offset_from(
                    stmts,
                    func_rva,
                    size,
                    m,
                ) == k,
        forall|m: int|
            0 <= m < offsets_in(stmts, func_rva, size).len() ==> {
                let k = #[trigger] offset_from(stmts, func_rva, size, m);
                &&& 0 <= k < stmts.len()
                &&& func_rva <= stmts[k].0 < func_rva + size
                &&& offsets_in(stmts, func_rva, size)[m] == (
                    (stmts[k].0 - func_rva) as u32,
                    stmts[k].1,
                )
            },
        forall|m: int, n: int|
            0 <= m < n < offsets_in(stmts, func_rva, size).len() ==> #[trigger] offset_from(
                stmts,
                func_rva,
                size,
                m,
            ) < #[trigger] offset_from(stmts, func_rva, size, n),
    decreases stmts.len(),
{
    if stmts.len() > 0 {
        let d = stmts.drop_last();
        let last = stmts.len() - 1;
        let before = offsets_in(d, func_rva, size);
        let after = offsets_in(stmts, func_rva, size);
        lemma_offset_from(d, func_rva, size);
        assert forall|m: int| 0 <= m < before.len() implies after[m] == before[m] && offset_from(
            stmts,
            func_rva,
            size,
            m,
        ) == #[trigger] offset_from(d, func_rva, size, m) by {}
        assert forall|k: int|
            0 <= k < stmts.len() && func_rva <= (#[trigger] stmts[k]).0 < func_rva
                + size implies exists|m: int|
            0 <= m < after.len() && #[trigger] offset_from(stmts, func_rva, size, m) == k by {
            if k < last {
                assert(d[k] == stmts[k]);
                let m = choose|m: int|
                    0 <= m < before.len() && #[trigger] offset_from(d, func_rva, size, m) == k;
                assert(offset_from(stmts, func_rva, size, m) == k);
            } else {
                assert(offset_from(stmts, func_rva, size, before.len() as int) == k);
            }
        }
        assert forall|m: int| 0 <= m < after.len() implies {
            let k = #[trigger] offset_from(stmts, func_rva, size, m);
            &&& 0 <= k < stmts.len()
            &&& func_rva <= stmts[k].0 < func_rva + size
            &&& after[m] == ((stmts[k].0 - func_rva) as u32, stmts[k].1)
        } by {
            if m < before.len() {
                let k = offset_from(d, func_rva, size, m);
                assert(d[k] == stmts[k]);
            }
        }
        assert forall|m: int, n: int| 0 <= m < n < after.len() implies #[trigger] offset_from(
            stmts,
            func_rva,
            size,
            m,
        ) < #[trigger] offset_from(stmts, func_rva, size, n) by {
            if n < before.len() {
                assert(offset_from(d, func_rva, size, m) < offset_from(d, func_rva, size, n));
            }
            if m < before.len() {
                assert(offset_from(d, func_rva, size, m) < d.len());
            }
        }
    }
}

/// The first statement inside the function gives the first offset.
proof fn lemma_first_offset(stmts: Seq<(u32, u32)>, func_rva: u32, size: u32, first: int)
    requires
        0 <= first < stmts.len(),
        func_rva <= stmts[first].0 < func_rva + size,
        forall|i: int|
            0 <= i < first ==> !(func_rva <= (#[trigger] stmts[i]).0 < func_rva + size),
    ensures
        offsets_in(stmts, func_rva, size).len() > 0,
        offset_from(stmts, func_rva, size, 0) == first,
{
    lemma_offset_from(stmts, func_rva, size);
    let offsets = offsets_in(stmts, func_rva, size);
    let z = choose|m: int|
        0 <= m < offsets.len() && #[trigger] offset_from(stmts, func_rva, size, m) == first;
    if z > 0 {
        let k = offset_from(stmts, func_rva, size, 0);
        assert(k < offset_from(stmts, func_rva, size, z));
        assert(func_rva <= stmts[k].0 < func_rva + size);
    }
}

proof fn lemma_start_of(stmts: Seq<(u32, u32)>, func_rva: u32, size: u32, first: int, i: int)
    requires
        0 <= first < i < stmts.len(),
        func_rva <= stmts[first].0 < func_rva + size,
        forall|i: int|
            0 <= i < first ==> !(func_rva <= (#[trigger] stmts[i]).0 < func_rva + size),
        func_rva < stmts[i].0 < func_rva + size,
        forall|l: int| first < l < i ==> (#[trigger] stmts[l]).0 != stmts[i].0,
    ensures
        starts(stmts, func_rva, size).contains(((stmts[i].0 - func_rva) as u32, stmts[i].1)),
{
    lemma_first_offset(stmts, func_rva, size, first);
    lemma_offset_from(stmts, func_rva, size);
    let offsets = offsets_in(stmts, func_rva, size);
    let o = opened(offsets);
    law_first_by_key(o);
    let m = choose|m: int|
        0 <= m < offsets.len() && #[trigger] offset_from(stmts, func_rva, size, m) == i;
    assert(m > 0);
    assert(o[m] == offsets[m]);
    assert forall|n: int| 0 <= n < m implies o[n].0 != o[m].0 by {
        let l = offset_from(stmts, func_rva, size, n);
        assert(l < offset_from(stmts, func_rva, size, m));
        if n > 0 {
            assert(offset_from(stmts, func_rva, size, 0) < l);
            assert(stmts[l].0 != stmts[i].0);
            assert(o[n] == offsets[n]);
        }
    }
    assert(is_first(o, m));
    assert(first_by_key(o).contains(o[m]));
}

/// The statement `i` starts at `start`, the first of its address behind `first`.
pub open spec fn starts_at(
    stmts: Seq<(u32, u32)>,
    func_rva: u32,
    size: u32,
    first: int,
    i: int,
    start: (u32, u32),
) -> bool {
    &&& first < i < stmts.len()
    &&& func_rva < stmts[i].0 < func_rva + size
    &&& start.0 == stmts[i].0 - func_rva
    &&& start.1 == stmts[i].1
    &&& forall|l: int| first < l < i ==> (#[trigger] stmts[l]).0 != stmts[i].0
}

/// Some statement behind `first` starts at `start`.
pub open spec fn some_statement_starts_at(
    stmts: Seq<(u32, u32)>,
    func_rva: u32,
    size: u32,
    first: int,
    start: (u32, u32),
) -> bool {
    exists|i: int| starts_at(stmts, func_rva, size, first, i, start)
}

proof fn lemma_start_from(
    stmts: Seq<(u32, u32)>,
    func_rva: u32,
    size: u32,
    first: int,
    g: int,
) -> (i: int)
    requires
        0 <= first < stmts.len(),
        func_rva <= stmts[first].0 < func_rva + size,
        forall|i: int|
            0 <= i < first ==> !(func_rva <= (#[trigger] stmts[i]).0 < func_rva + size),
        0 < g < starts(stmts, func_rva, size).len(),
    ensures
        starts_at(stmts, func_rva, size, first, i, starts(stmts, func_rva, size)[g]),
{
    lemma_first_offset(stmts, func_rva, size, first);
    lemma_offset_from(stmts, func_rva, size);
    let offsets = offsets_in(stmts, func_rva, size);
    let o = opened(offsets);
    let r = starts(stmts, func_rva, size);
    law_first_by_key(o);
    law_starts(stmts, func_rva, size);
    assert(r.contains(r[g]));
    let m = choose|m: int| #[trigger] is_first(o, m) && o[m] == r[g];
    assert(r[0].0 < r[g].0);
    assert(m > 0);
    assert(o[m] == offsets[m]);
    let i = offset_from(stmts, func_rva, size, m);
    assert(offset_from(stmts, func_rva, size, 0) < i);
    assert forall|l: int| first < l < i implies (#[trigger] stmts[l]).0 != stmts[i].0 by {
        if stmts[l].0 == stmts[i].0 {
            let n = choose|n: int|
                0 <= n < offsets.len() && #[trigger] offset_from(stmts, func_rva, size, n) == l;
            if n > m {
                assert(offset_from(stmts, func_rva, size, m) < offset_from(
                    stmts,
                    func_rva,
                    size,
                    n,
                ));
            }
            assert(n != 0 && n != m);
            assert(o[n] == offsets[n]);
            assert(o[n].0 != o[m].0);
        }
    }
    i
}

/// Whatever the order of the statements: the first of them inside the function, `first`, gives
/// the start of the function its line, every other one inside it that is the first of its
/// address starts there with its line, unless that is where the function starts, and there are
/// no other starts.
pub proof fn law_starts_of_any_order(stmts: Seq<(u32, u32)>, func_rva: u32, size: u32, first: int)
    requires
        0 <= first < stmts.len(),
        func_rva <= stmts[first].0 < func_rva + size,
        forall|i: int|
            0 <= i < first ==> !(func_rva <= (#[trigger] stmts[i]).0 < func_rva + size),
    ensures
        starts(stmts, func_rva, size)[0] == (0u32, stmts[first].1),
        forall|i: int|
            first < i < stmts.len() && func_rva < (#[trigger] stmts[i]).0 < func_rva + size && (
            forall|l: int| first < l < i ==> (#[trigger] stmts[l]).0 != stmts[i].0) ==> starts(
                stmts,
                func_rva,
                size,
            ).contains(((stmts[i].0 - func_rva) as u32, stmts[i].1)),
        forall|g: int|
            0 < g < starts(stmts, func_rva, size).len() ==> some_statement_starts_at(
                stmts,
                func_rva,
                size,
                first,
                #[trigger] starts(stmts, func_rva, size)[g],
            ),
{
    let o = opened(offsets_in(stmts, func_rva, size));
    let r = starts(stmts, func_rva, size);
    assert(o[0] == (0u32, stmts[first].1)) by {
        lemma_first_offset(stmts, func_rva, size, first);
        lemma_offset_from(stmts, func_rva, size);
    }
    assert(r[0] == o[0]) by {
        lemma_first_offset(stmts, func_rva, size, first);
        law_first_by_key(o);
        law_starts(stmts, func_rva, size);
        assert(is_first(o, 0));
        assert(r.contains(o[0]));
        let at = choose|i: int| 0 <= i < r.len() && r[i] == o[0];
        if at > 0 {
            assert(r[0].0 < r[at].0);
        }
    }
    assert forall|i: int|
        first < i < stmts.len() && func_rva < (#[trigger] stmts[i]).0 < func_rva + size && (forall|
            l: int,
        |
            first < l < i ==> (#[trigger] stmts[l]).0 != stmts[i].0) implies r.contains(
        ((stmts[i].0 - func_rva) as u32, stmts[i].1),
    ) by {
        lemma_start_of(stmts, func_rva, size, first, i);
    }
    assert forall|g: int| 0 < g < r.len() implies some_statement_starts_at(
        stmts,
        func_rva,
        size,
        first,
        #[trigger] r[g],
    ) by {
        let i = lemma_start_from(stmts, func_rva, size, first, g);
    }
}

} // verus!
