//! Compatibility measures between two genomes' connections, and crossover reproduction.
//!
//! Connections are aligned by innovation id. Both the measures and crossover walk the two
//! connection lists side by side the way a merge does.
use crate::genome::Connection;
use crate::random::{percent, roll, spec_percent};
use core::cmp::Ordering;
use rand::rngs::ThreadRng;
use vstd::prelude::*;

verus! {

/// The innovation ids of a connection sequence.
pub open spec fn innos<C: Connection>(s: Seq<C>) -> Seq<usize> {
    s.map_values(|c: C| c.spec_inno())
}

/// The side-by-side walk of [disjoint_excess_count] from positions `i` in `l` and `j` in `r`,
/// having counted `d` disjoint genes so far: the final `(disjoint, excess)` counts.
pub open spec fn dec_walk(l: Seq<usize>, r: Seq<usize>, i: int, j: int, d: int) -> (int, int)
    decreases l.len() - i + r.len() - j,
{
    if !(0 <= i < l.len() && 0 <= j < r.len()) {
        (d, 0)
    } else if l[i] == r[j] {
        if i + 1 >= l.len() {
            (d, r.len() - (j + 1))
        } else if j + 1 >= r.len() {
            (d, l.len() - (i + 1))
        } else {
            dec_walk(l, r, i + 1, j + 1, d)
        }
    } else if l[i] > r[j] {
        if j + 1 >= r.len() {
            (d + 1, l.len() - i)
        } else {
            dec_walk(l, r, i, j + 1, d + 1)
        }
    } else {
        if i + 1 >= l.len() {
            (d + 1, r.len() - j)
        } else {
            dec_walk(l, r, i + 1, j, d + 1)
        }
    }
}

/// `(disjoint, excess)` counts of two innovation id sequences, as [disjoint_excess_count]
/// computes them.
pub open spec fn disjoint_excess(l: Seq<usize>, r: Seq<usize>) -> (int, int) {
    if l.len() == 0 {
        (0, r.len() as int)
    } else if r.len() == 0 {
        (0, l.len() as int)
    } else {
        dec_walk(l, r, 0, 0, 0)
    }
}

proof fn lemma_dec_walk_bounds(l: Seq<usize>, r: Seq<usize>, i: int, j: int, d: int)
    requires
        0 <= i < l.len(),
        0 <= j < r.len(),
        0 <= d,
        d <= i + j,
    ensures
        0 <= dec_walk(l, r, i, j, d).0 <= l.len() + r.len(),
        0 <= dec_walk(l, r, i, j, d).1 <= l.len() + r.len(),
    decreases l.len() - i + r.len() - j,
{
    if l[i] == r[j] {
        if i + 1 < l.len() && j + 1 < r.len() {
            lemma_dec_walk_bounds(l, r, i + 1, j + 1, d);
        }
    } else if l[i] > r[j] {
        if j + 1 < r.len() {
            lemma_dec_walk_bounds(l, r, i, j + 1, d + 1);
        }
    } else {
        if i + 1 < l.len() {
            lemma_dec_walk_bounds(l, r, i + 1, j, d + 1);
        }
    }
}

/// Count misaligned connections between two slices: `(disjoint, excess)`. Walking both by
/// innovation id, a gene of one side that the other side passes over is disjoint; once one
/// side runs out, the genes left on the other side are excess.
pub fn disjoint_excess_count<C: Connection>(l: &[C], r: &[C]) -> (res: (usize, usize))
    requires
        l@.len() + r@.len() <= usize::MAX,
    ensures
        res.0 == disjoint_excess(innos(l@), innos(r@)).0,
        res.1 == disjoint_excess(innos(l@), innos(r@)).1,
{
    let ghost li = innos(l@);
    let ghost ri = innos(r@);
    if l.len() == 0 {
        return (0, r.len());
    }
    if r.len() == 0 {
        return (0, l.len());
    }
    let mut i: usize = 0;
    let mut j: usize = 0;
    let mut disjoint: usize = 0;
    proof {
        lemma_dec_walk_bounds(li, ri, 0, 0, 0);
    }
    loop
        invariant
            li == innos(l@),
            ri == innos(r@),
            0 <= i < l@.len(),
            0 <= j < r@.len(),
            disjoint <= i + j,
            l@.len() + r@.len() <= usize::MAX,
            disjoint_excess(li, ri) == dec_walk(li, ri, i as int, j as int, disjoint as int),
        decreases l@.len() - i + r@.len() - j,
    {
        let l_inno = l[i].inno();
        let r_inno = r[j].inno();
        assert(li[i as int] == l_inno && ri[j as int] == r_inno);
        if l_inno == r_inno {
            if i + 1 >= l.len() {
                return (disjoint, r.len() - (j + 1));
            } else if j + 1 >= r.len() {
                return (disjoint, l.len() - (i + 1));
            }
            i = i + 1;
            j = j + 1;
        } else if l_inno > r_inno {
            if j + 1 >= r.len() {
                return (disjoint + 1, l.len() - i);
            }
            disjoint = disjoint + 1;
            j = j + 1;
        } else {
            if i + 1 >= l.len() {
                return (disjoint + 1, r.len() - j);
            }
            disjoint = disjoint + 1;
            i = i + 1;
        }
    }
}

proof fn lemma_dec_walk_symmetric(l: Seq<usize>, r: Seq<usize>, i: int, j: int, d: int)
    ensures
        dec_walk(l, r, i, j, d) == dec_walk(r, l, j, i, d),
    decreases l.len() - i + r.len() - j,
{
    if 0 <= i < l.len() && 0 <= j < r.len() {
        if l[i] == r[j] {
            if i + 1 < l.len() && j + 1 < r.len() {
                lemma_dec_walk_symmetric(l, r, i + 1, j + 1, d);
            }
        } else if l[i] > r[j] {
            if j + 1 < r.len() {
                lemma_dec_walk_symmetric(l, r, i, j + 1, d + 1);
            }
        } else {
            if i + 1 < l.len() {
                lemma_dec_walk_symmetric(l, r, i + 1, j, d + 1);
            }
        }
    }
}

/// The disjoint and excess counts of two genomes do not depend on which one comes first.
pub proof fn lemma_disjoint_excess_symmetric(l: Seq<usize>, r: Seq<usize>)
    ensures
        disjoint_excess(l, r) == disjoint_excess(r, l),
{
    if l.len() > 0 && r.len() > 0 {
        lemma_dec_walk_symmetric(l, r, 0, 0, 0);
    }
}

/// Ids strictly increasing.
pub open spec fn strictly_increasing(s: Seq<usize>) -> bool {
    forall|a: int, b: int| 0 <= a < b < s.len() ==> s[a] < s[b]
}

/// The number of ids of `a` that are at most `m` and not among `b`'s.
pub open spec fn lone_upto(a: Seq<usize>, b: Seq<usize>, m: int) -> nat
    decreases a.len(),
{
    if a.len() == 0 {
        0
    } else {
        (if a[0] <= m && !b.contains(a[0]) {
            1nat
        } else {
            0nat
        }) + lone_upto(a.drop_first(), b, m)
    }
}

/// The number of ids of `a` above `m`.
pub open spec fn count_above(a: Seq<usize>, m: int) -> nat
    decreases a.len(),
{
    if a.len() == 0 {
        0
    } else {
        (if a[0] > m {
            1nat
        } else {
            0nat
        }) + count_above(a.drop_first(), m)
    }
}

/// The disjoint and excess counts stated directly. Where one side is empty, every id of the
/// other is excess. Otherwise let `m` be the smaller of the two largest ids: the ids that
/// only one side has are disjoint when at most `m` and excess when above it.
pub open spec fn disjoint_excess_direct(l: Seq<usize>, r: Seq<usize>) -> (int, int) {
    if l.len() == 0 {
        (0, r.len() as int)
    } else if r.len() == 0 {
        (0, l.len() as int)
    } else {
        let m: int = if l.last() <= r.last() { l.last() as int } else { r.last() as int };
        (
            (lone_upto(l, r, m) + lone_upto(r, l, m)) as int,
            (count_above(l, m) + count_above(r, m)) as int,
        )
    }
}

proof fn lemma_lone_upto_congr(a: Seq<usize>, b1: Seq<usize>, b2: Seq<usize>, m: int)
    requires
        forall|k: int| 0 <= k < a.len() ==> b1.contains(#[trigger] a[k]) == b2.contains(a[k]),
    ensures
        lone_upto(a, b1, m) == lone_upto(a, b2, m),
    decreases a.len(),
{
    if a.len() > 0 {
        assert(b1.contains(a[0]) == b2.contains(a[0]));
        assert forall|k: int| 0 <= k < a.drop_first().len() implies b1.contains(
            #[trigger] a.drop_first()[k],
        ) == b2.contains(a.drop_first()[k]) by {
            assert(a.drop_first()[k] == a[k + 1]);
        }
        lemma_lone_upto_congr(a.drop_first(), b1, b2, m);
    }
}

proof fn lemma_all_above(a: Seq<usize>, b: Seq<usize>, m: int)
    requires
        forall|k: int| 0 <= k < a.len() ==> #[trigger] a[k] > m,
    ensures
        lone_upto(a, b, m) == 0,
        count_above(a, m) == a.len(),
    decreases a.len(),
{
    if a.len() > 0 {
        assert(a[0] > m);
        assert forall|k: int| 0 <= k < a.drop_first().len() implies #[trigger] a.drop_first()[k] > m by {
            assert(a.drop_first()[k] == a[k + 1]);
        }
        lemma_all_above(a.drop_first(), b, m);
    }
}

/// A suffix of `s` from `i`: its first id and what follows it.
proof fn lemma_suffix_step(s: Seq<usize>, i: int)
    requires
        0 <= i < s.len(),
    ensures
        s.subrange(i, s.len() as int)[0] == s[i],
        s.subrange(i, s.len() as int).drop_first() == s.subrange(i + 1, s.len() as int),
        s.subrange(i, s.len() as int).len() == s.len() - i,
{
    assert(s.subrange(i, s.len() as int).drop_first() =~= s.subrange(i + 1, s.len() as int));
}

/// The counts over the suffix of `s` from `i`: its first id's share and the rest's.
proof fn lemma_suffix_counts(s: Seq<usize>, i: int, b: Seq<usize>, m: int)
    requires
        0 <= i < s.len(),
    ensures
        lone_upto(s.subrange(i, s.len() as int), b, m) == (if s[i] <= m && !b.contains(s[i]) {
            1nat
        } else {
            0nat
        }) + lone_upto(s.subrange(i + 1, s.len() as int), b, m),
        count_above(s.subrange(i, s.len() as int), m) == (if s[i] > m {
            1nat
        } else {
            0nat
        }) + count_above(s.subrange(i + 1, s.len() as int), m),
{
    lemma_suffix_step(s, i);
}

/// A walk step of [dec_walk] from positions `i` and `j` adds to `d` the direct counts of the
/// suffixes from there, with `m` the smaller of the two largest ids.
#[verifier::spinoff_prover]
#[verifier::rlimit(50)]
proof fn lemma_dec_walk_direct(l: Seq<usize>, r: Seq<usize>, i: int, j: int, d: int)
    requires
        strictly_increasing(l),
        strictly_increasing(r),
        0 <= i < l.len(),
        0 <= j < r.len(),
    ensures
        ({
            let m: int = if l.last() <= r.last() { l.last() as int } else { r.last() as int };
            let ls = l.subrange(i, l.len() as int);
            let rs = r.subrange(j, r.len() as int);
            dec_walk(l, r, i, j, d) == (
                d + lone_upto(ls, rs, m) + lone_upto(rs, ls, m),
                (count_above(ls, m) + count_above(rs, m)) as int,
            )
        }),
    decreases l.len() - i + r.len() - j,
{
    let m: int = if l.last() <= r.last() { l.last() as int } else { r.last() as int };
    let ls = l.subrange(i, l.len() as int);
    let rs = r.subrange(j, r.len() as int);
    let nl = l.len() as int;
    let nr = r.len() as int;
    lemma_suffix_step(l, i);
    lemma_suffix_step(r, j);
    let ls1 = l.subrange(i + 1, nl);
    let rs1 = r.subrange(j + 1, nr);
    lemma_suffix_counts(l, i, rs, m);
    lemma_suffix_counts(r, j, ls, m);
    lemma_suffix_counts(l, i, rs1, m);
    lemma_suffix_counts(r, j, ls1, m);
    assert(l.last() == l[nl - 1] && r.last() == r[nr - 1]);
    if l[i] == r[j] {
        let x = l[i];
        assert(rs.contains(x) && ls.contains(x)) by {
            assert(rs[0] == x && ls[0] == x);
        }
        assert forall|k: int| 0 <= k < ls1.len() implies rs.contains(#[trigger] ls1[k]) == rs1.contains(ls1[k]) by {
            assert(ls1[k] == l[i + 1 + k]);
            if rs.contains(ls1[k]) {
                let q = choose|q: int| 0 <= q < rs.len() && rs[q] == ls1[k];
                assert(rs[q] == r[j + q]);
                if q == 0 {
                    assert(false);
                }
                assert(rs1[q - 1] == r[j + q]);
            }
            if rs1.contains(ls1[k]) {
                let q = choose|q: int| 0 <= q < rs1.len() && rs1[q] == ls1[k];
                assert(rs1[q] == rs[q + 1]);
            }
        }
        assert forall|k: int| 0 <= k < rs1.len() implies ls.contains(#[trigger] rs1[k]) == ls1.contains(rs1[k]) by {
            assert(rs1[k] == r[j + 1 + k]);
            if ls.contains(rs1[k]) {
                let q = choose|q: int| 0 <= q < ls.len() && ls[q] == rs1[k];
                assert(ls[q] == l[i + q]);
                if q == 0 {
                    assert(false);
                }
                assert(ls1[q - 1] == l[i + q]);
            }
            if ls1.contains(rs1[k]) {
                let q = choose|q: int| 0 <= q < ls1.len() && ls1[q] == rs1[k];
                assert(ls1[q] == ls[q + 1]);
            }
        }
        lemma_lone_upto_congr(ls1, rs, rs1, m);
        lemma_lone_upto_congr(rs1, ls, ls1, m);
        if i + 1 >= nl {
            // x is the largest id of l, so m == x and every later id of r is above it
            assert(m == x as int);
            assert forall|k: int| 0 <= k < rs1.len() implies #[trigger] rs1[k] > m by {
                assert(rs1[k] == r[j + 1 + k]);
            }
            lemma_all_above(rs1, ls, m);
            lemma_all_above(rs1, ls1, m);
            assert(ls1.len() == 0);
        } else if j + 1 >= nr {
            assert(m == x as int);
            assert forall|k: int| 0 <= k < ls1.len() implies #[trigger] ls1[k] > m by {
                assert(ls1[k] == l[i + 1 + k]);
            }
            lemma_all_above(ls1, rs, m);
            lemma_all_above(ls1, rs1, m);
            assert(rs1.len() == 0);
        } else {
            assert(x < l[nl - 1] && x < r[nr - 1]);
            lemma_dec_walk_direct(l, r, i + 1, j + 1, d);
        }
    } else if l[i] > r[j] {
        let y = r[j];
        assert(!ls.contains(y)) by {
            if ls.contains(y) {
                let q = choose|q: int| 0 <= q < ls.len() && ls[q] == y;
                assert(ls[q] == l[i + q]);
            }
        }
        assert forall|k: int| 0 <= k < ls.len() implies rs.contains(#[trigger] ls[k]) == rs1.contains(ls[k]) by {
            assert(ls[k] == l[i + k]);
            if rs.contains(ls[k]) {
                let q = choose|q: int| 0 <= q < rs.len() && rs[q] == ls[k];
                if q == 0 {
                    assert(false);
                }
                assert(rs1[q - 1] == rs[q]);
            }
            if rs1.contains(ls[k]) {
                let q = choose|q: int| 0 <= q < rs1.len() && rs1[q] == ls[k];
                assert(rs1[q] == rs[q + 1]);
            }
        }
        lemma_lone_upto_congr(ls, rs, rs1, m);
        if j + 1 >= nr {
            assert(m == y as int);
            assert forall|k: int| 0 <= k < ls.len() implies #[trigger] ls[k] > m by {
                assert(ls[k] == l[i + k]);
            }
            lemma_all_above(ls, rs, m);
            lemma_all_above(ls, rs1, m);
            assert(rs1.len() == 0);
        } else {
            assert(y < r[nr - 1]);
            assert(y < l[nl - 1]) by {
                if i < nl - 1 {
                    assert(l[i] < l[nl - 1]);
                }
            }
            lemma_dec_walk_direct(l, r, i, j + 1, d + 1);
        }
    } else {
        let y = l[i];
        assert(!rs.contains(y)) by {
            if rs.contains(y) {
                let q = choose|q: int| 0 <= q < rs.len() && rs[q] == y;
                assert(rs[q] == r[j + q]);
            }
        }
        assert forall|k: int| 0 <= k < rs.len() implies ls.contains(#[trigger] rs[k]) == ls1.contains(rs[k]) by {
            assert(rs[k] == r[j + k]);
            if ls.contains(rs[k]) {
                let q = choose|q: int| 0 <= q < ls.len() && ls[q] == rs[k];
                if q == 0 {
                    assert(false);
                }
                assert(ls1[q - 1] == ls[q]);
            }
            if ls1.contains(rs[k]) {
                let q = choose|q: int| 0 <= q < ls1.len() && ls1[q] == rs[k];
                assert(ls1[q] == ls[q + 1]);
            }
        }
        lemma_lone_upto_congr(rs, ls, ls1, m);
        if i + 1 >= nl {
            assert(m == y as int);
            assert forall|k: int| 0 <= k < rs.len() implies #[trigger] rs[k] > m by {
                assert(rs[k] == r[j + k]);
            }
            lemma_all_above(rs, ls, m);
            lemma_all_above(rs, ls1, m);
            assert(ls1.len() == 0);
        } else {
            assert(y < l[nl - 1]);
            assert(y < r[nr - 1]) by {
                if j < nr - 1 {
                    assert(r[j] < r[nr - 1]);
                }
            }
            lemma_dec_walk_direct(l, r, i + 1, j, d + 1);
        }
    }
}

/// For ids strictly increasing on both sides, [disjoint_excess_count]'s walk counts exactly
/// what [disjoint_excess_direct] states: the ids that only one side has are disjoint up to the
/// smaller of the two largest ids and excess above it.
pub proof fn lemma_disjoint_excess_direct(l: Seq<usize>, r: Seq<usize>)
    requires
        strictly_increasing(l),
        strictly_increasing(r),
    ensures
        disjoint_excess(l, r) == disjoint_excess_direct(l, r),
{
    if l.len() > 0 && r.len() > 0 {
        lemma_dec_walk_direct(l, r, 0, 0, 0);
        assert(l.subrange(0, l.len() as int) =~= l);
        assert(r.subrange(0, r.len() as int) =~= r);
    }
}

/// The index pairs `(i, j)` with `l[i]` and `r[j]` aligned (same innovation id) in the
/// side-by-side walk from positions `i` and `j`.
pub open spec fn aligned_walk(l: Seq<usize>, r: Seq<usize>, i: int, j: int) -> Seq<(usize, usize)>
    decreases l.len() - i + r.len() - j,
{
    if !(0 <= i < l.len() && 0 <= j < r.len()) {
        seq![]
    } else if l[i] == r[j] {
        seq![(i as usize, j as usize)] + aligned_walk(l, r, i + 1, j + 1)
    } else if l[i] > r[j] {
        aligned_walk(l, r, i, j + 1)
    } else {
        aligned_walk(l, r, i + 1, j)
    }
}

proof fn lemma_walk_accounts(l: Seq<usize>, r: Seq<usize>, i: int, j: int, d: int)
    requires
        0 <= i < l.len(),
        0 <= j < r.len(),
    ensures
        dec_walk(l, r, i, j, d).0 + dec_walk(l, r, i, j, d).1 + 2 * aligned_walk(l, r, i, j).len()
            == d + (l.len() - i) + (r.len() - j),
    decreases l.len() - i + r.len() - j,
{
    reveal_with_fuel(aligned_walk, 2);
    if l[i] == r[j] {
        if i + 1 < l.len() && j + 1 < r.len() {
            lemma_walk_accounts(l, r, i + 1, j + 1, d);
        }
    } else if l[i] > r[j] {
        if j + 1 < r.len() {
            lemma_walk_accounts(l, r, i, j + 1, d + 1);
        }
    } else {
        if i + 1 < l.len() {
            lemma_walk_accounts(l, r, i + 1, j, d + 1);
        }
    }
}

/// Every gene of the two genomes is accounted for once: as disjoint, as excess, or as one
/// of an aligned pair.
pub proof fn lemma_genes_accounted(l: Seq<usize>, r: Seq<usize>)
    ensures
        disjoint_excess(l, r).0 + disjoint_excess(l, r).1 + 2 * aligned_walk(l, r, 0, 0).len()
            == l.len() + r.len(),
{
    if l.len() > 0 && r.len() > 0 {
        lemma_walk_accounts(l, r, 0, 0, 0);
    } else {
        assert(aligned_walk(l, r, 0, 0) =~= seq![]);
    }
}

/// Pair `q` indexes a gene of `l` from `i` on and one of `r` from `j` on, of the same id.
spec fn pair_aligned_from(l: Seq<usize>, r: Seq<usize>, i: int, j: int, q: (usize, usize)) -> bool {
    &&& i <= q.0 < l.len()
    &&& j <= q.1 < r.len()
    &&& l[q.0 as int] == r[q.1 as int]
}

proof fn lemma_aligned_walk_matches(l: Seq<usize>, r: Seq<usize>, i: int, j: int)
    requires
        0 <= i,
        0 <= j,
        l.len() <= usize::MAX,
        r.len() <= usize::MAX,
    ensures
        forall|k: int|
            0 <= k < aligned_walk(l, r, i, j).len() ==> pair_aligned_from(
                l,
                r,
                i,
                j,
                #[trigger] aligned_walk(l, r, i, j)[k],
            ),
        forall|a: int, b: int|
            0 <= a < b < aligned_walk(l, r, i, j).len() ==> (#[trigger] aligned_walk(l, r, i, j)[a]).0
                < (#[trigger] aligned_walk(l, r, i, j)[b]).0 && aligned_walk(l, r, i, j)[a].1
                < aligned_walk(l, r, i, j)[b].1,
    decreases l.len() - i + r.len() - j,
{
    let p = aligned_walk(l, r, i, j);
    if 0 <= i < l.len() && 0 <= j < r.len() {
        if l[i] == r[j] {
            lemma_aligned_walk_matches(l, r, i + 1, j + 1);
            let rest = aligned_walk(l, r, i + 1, j + 1);
            assert(p == seq![(i as usize, j as usize)] + rest);
            assert forall|k: int| 0 <= k < p.len() implies pair_aligned_from(l, r, i, j, #[trigger] p[k]) by {
                if k > 0 {
                    assert(p[k] == rest[k - 1]);
                    assert(pair_aligned_from(l, r, i + 1, j + 1, rest[k - 1]));
                }
            }
            assert forall|a: int, b: int| 0 <= a < b < p.len() implies (#[trigger] p[a]).0 < (
            #[trigger] p[b]).0 && p[a].1 < p[b].1 by {
                assert(p[b] == rest[b - 1]);
                assert(pair_aligned_from(l, r, i + 1, j + 1, rest[b - 1]));
                if a > 0 {
                    assert(p[a] == rest[a - 1]);
                }
            }
        } else if l[i] > r[j] {
            lemma_aligned_walk_matches(l, r, i, j + 1);
            let rest = aligned_walk(l, r, i, j + 1);
            assert(p == rest);
            assert forall|k: int| 0 <= k < p.len() implies pair_aligned_from(l, r, i, j, #[trigger] p[k]) by {
                assert(pair_aligned_from(l, r, i, j + 1, rest[k]));
            }
        } else {
            lemma_aligned_walk_matches(l, r, i + 1, j);
            let rest = aligned_walk(l, r, i + 1, j);
            assert(p == rest);
            assert forall|k: int| 0 <= k < p.len() implies pair_aligned_from(l, r, i, j, #[trigger] p[k]) by {
                assert(pair_aligned_from(l, r, i + 1, j, rest[k]));
            }
        }
    } else {
        assert(p.len() == 0);
    }
}

proof fn lemma_aligned_walk_complete(l: Seq<usize>, r: Seq<usize>, i: int, j: int)
    requires
        strictly_increasing(l),
        strictly_increasing(r),
        0 <= i,
        0 <= j,
        l.len() <= usize::MAX,
        r.len() <= usize::MAX,
    ensures
        forall|a: int, b: int|
            i <= a < l.len() && j <= b < r.len() && #[trigger] l[a] == #[trigger] r[b]
                ==> aligned_walk(l, r, i, j).contains((a as usize, b as usize)),
    decreases l.len() - i + r.len() - j,
{
    if 0 <= i < l.len() && 0 <= j < r.len() {
        let p = aligned_walk(l, r, i, j);
        if l[i] == r[j] {
            lemma_aligned_walk_complete(l, r, i + 1, j + 1);
            let rest = aligned_walk(l, r, i + 1, j + 1);
            assert(p == seq![(i as usize, j as usize)] + rest);
            assert forall|a: int, b: int|
                i <= a < l.len() && j <= b < r.len() && #[trigger] l[a] == #[trigger] r[b]
                    implies p.contains((a as usize, b as usize)) by {
                if a == i {
                    if b != j {
                        assert(r[j] < r[b]);
                    }
                    assert(p[0] == (a as usize, b as usize));
                } else {
                    assert(l[i] < l[a]);
                    if b == j {
                        assert(false);
                    }
                    assert(b > j) by {
                        if b < j {
                            assert(r[b] < r[j]);
                        }
                    }
                    let q = choose|q: int| 0 <= q < rest.len() && rest[q] == (a as usize, b as usize);
                    assert(p[q + 1] == rest[q]);
                }
            }
        } else if l[i] > r[j] {
            lemma_aligned_walk_complete(l, r, i, j + 1);
            assert forall|a: int, b: int|
                i <= a < l.len() && j <= b < r.len() && #[trigger] l[a] == #[trigger] r[b]
                    implies p.contains((a as usize, b as usize)) by {
                if b == j {
                    if a > i {
                        assert(l[i] < l[a]);
                    }
                }
            }
        } else {
            lemma_aligned_walk_complete(l, r, i + 1, j);
            assert forall|a: int, b: int|
                i <= a < l.len() && j <= b < r.len() && #[trigger] l[a] == #[trigger] r[b]
                    implies p.contains((a as usize, b as usize)) by {
                if a == i {
                    if b > j {
                        assert(r[j] < r[b]);
                    }
                }
            }
        }
    }
}

/// The aligned pairs are exactly the genes of the two sides with the same innovation id:
/// every pair `(i, j)` indexes a gene of each side, the two with the same id, the pairs come
/// in increasing order on both sides, and, where each side's ids increase strictly, every
/// two genes of the same id are paired. The sides are slices, so their lengths fit in `usize`.
pub proof fn lemma_aligned_pairs_same_inno<C: Connection>(l: Seq<C>, r: Seq<C>)
    requires
        l.len() <= usize::MAX,
        r.len() <= usize::MAX,
    ensures
        forall|k: int|
            0 <= k < aligned_walk(innos(l), innos(r), 0, 0).len() ==> {
                let p = #[trigger] aligned_walk(innos(l), innos(r), 0, 0)[k];
                &&& p.0 < l.len()
                &&& p.1 < r.len()
                &&& l[p.0 as int].spec_inno() == r[p.1 as int].spec_inno()
            },
        forall|a: int, b: int|
            0 <= a < b < aligned_walk(innos(l), innos(r), 0, 0).len() ==> aligned_walk(
                innos(l),
                innos(r),
                0,
                0,
            )[a].0 < aligned_walk(innos(l), innos(r), 0, 0)[b].0 && aligned_walk(
                innos(l),
                innos(r),
                0,
                0,
            )[a].1 < aligned_walk(innos(l), innos(r), 0, 0)[b].1,
        strictly_increasing(innos(l)) && strictly_increasing(innos(r)) ==> forall|a: int, b: int|
            0 <= a < l.len() && 0 <= b < r.len() && #[trigger] l[a].spec_inno()
                == #[trigger] r[b].spec_inno() ==> aligned_walk(innos(l), innos(r), 0, 0).contains(
                (a as usize, b as usize),
            ),
{
    let li = innos(l);
    let ri = innos(r);
    lemma_aligned_walk_matches(li, ri, 0, 0);
    let p = aligned_walk(li, ri, 0, 0);
    assert forall|k: int| 0 <= k < p.len() implies {
        let q = #[trigger] p[k];
        &&& q.0 < l.len()
        &&& q.1 < r.len()
        &&& l[q.0 as int].spec_inno() == r[q.1 as int].spec_inno()
    } by {
        assert(pair_aligned_from(li, ri, 0, 0, p[k]));
        assert(li[p[k].0 as int] == l[p[k].0 as int].spec_inno());
        assert(ri[p[k].1 as int] == r[p[k].1 as int].spec_inno());
    }
    if strictly_increasing(li) && strictly_increasing(ri) {
        lemma_aligned_walk_complete(li, ri, 0, 0);
        assert forall|a: int, b: int|
            0 <= a < l.len() && 0 <= b < r.len() && #[trigger] l[a].spec_inno()
                == #[trigger] r[b].spec_inno() implies p.contains((a as usize, b as usize)) by {
            assert(li[a] == l[a].spec_inno() && ri[b] == r[b].spec_inno());
        }
    }
}

/// The index pairs of aligned genes (same innovation id) that the side-by-side walk meets,
/// in walk order. Misaligned genes are not paired. The average parameter difference of two
/// genomes is taken over these pairs.
pub fn aligned_pairs<C: Connection>(l: &[C], r: &[C]) -> (res: Vec<(usize, usize)>)
    ensures
        res@ == aligned_walk(innos(l@), innos(r@), 0, 0),
{
    let ghost li = innos(l@);
    let ghost ri = innos(r@);
    let mut res: Vec<(usize, usize)> = Vec::new();
    let mut i: usize = 0;
    let mut j: usize = 0;
    while i < l.len() && j < r.len()
        invariant
            li == innos(l@),
            ri == innos(r@),
            i <= l@.len(),
            j <= r@.len(),
            aligned_walk(li, ri, 0, 0) == res@ + aligned_walk(li, ri, i as int, j as int),
        decreases l@.len() - i + r@.len() - j,
    {
        let l_inno = l[i].inno();
        let r_inno = r[j].inno();
        assert(li[i as int] == l_inno && ri[j as int] == r_inno);
        if l_inno == r_inno {
            res.push((i, j));
            assert(aligned_walk(li, ri, 0, 0) == res@ + aligned_walk(li, ri, i + 1, j + 1));
            i = i + 1;
            j = j + 1;
        } else if l_inno > r_inno {
            j = j + 1;
        } else {
            i = i + 1;
        }
    }
    assert(aligned_walk(li, ri, i as int, j as int) =~= seq![]);
    assert(res@ =~= res@ + seq![]);
    res
}

/// Whether the gene picked from `base` (and its aligned partner `opt`, if any) may be kept
/// disabled: when either of them is disabled.
pub open spec fn keep_disabled_applies<C: Connection>(base: C, opt: Option<C>) -> bool {
    !base.spec_enabled() || (opt matches Some(o) && !o.spec_enabled())
}

/// The gene [pick_gene] yields for the rolls `pick_roll` and `keep_roll`: the partner when
/// there is one and `pick_roll` is below 50%, else `base`; disabled when
/// [keep_disabled_applies] and `keep_roll` is below 75%.
pub open spec fn picked_gene<C: Connection>(base: C, opt: Option<C>, pick_roll: u64, keep_roll: u64) -> C {
    let chosen = match opt {
        Some(o) => if pick_roll < spec_percent(50) {
            o
        } else {
            base
        },
        None => base,
    };
    if keep_disabled_applies(base, opt) && keep_roll < spec_percent(75) {
        chosen.spec_with_enabled(false)
    } else {
        chosen
    }
}

/// The genes that a pick from `base` and its partner `opt` can yield, whatever the rolls:
/// `base` or the partner unchanged, or, when [keep_disabled_applies], one of them disabled.
pub open spec fn is_pick_of<C: Connection>(c: C, base: C, opt: Option<C>) -> bool {
    let keep = keep_disabled_applies(base, opt);
    match opt {
        Some(o) => c == base || c == o || (keep && (c == base.spec_with_enabled(false)
            || c == o.spec_with_enabled(false))),
        None => c == base || (keep && c == base.spec_with_enabled(false)),
    }
}

/// Every outcome of [picked_gene] is a pick of its inputs.
pub proof fn lemma_picked_gene_is_pick<C: Connection>(base: C, opt: Option<C>, pick_roll: u64, keep_roll: u64)
    ensures
        is_pick_of(picked_gene(base, opt, pick_roll, keep_roll), base, opt),
{
}

/// The child's gene for the rolls: the partner's gene when there is a partner and the pick
/// roll is below 50%, else the base gene, each up to its enabled flag. Where the base gene or
/// its partner is disabled and the keep roll is below 75%, the child's gene is disabled;
/// where both are enabled, or the keep roll is 75% or more, the chosen gene is taken as it is.
pub proof fn lemma_picked_gene_rule<C: Connection>(base: C, opt: Option<C>, pick_roll: u64, keep_roll: u64)
    ensures
        opt matches Some(o) ==> (pick_roll < spec_percent(50) ==> picked_gene(
            base,
            opt,
            pick_roll,
            keep_roll,
        ).spec_with_enabled(true) == o.spec_with_enabled(true)),
        (opt is None || pick_roll >= spec_percent(50)) ==> picked_gene(
            base,
            opt,
            pick_roll,
            keep_roll,
        ).spec_with_enabled(true) == base.spec_with_enabled(true),
        (!base.spec_enabled() || (opt matches Some(o) && !o.spec_enabled())) && keep_roll
            < spec_percent(75) ==> !picked_gene(base, opt, pick_roll, keep_roll).spec_enabled(),
        (base.spec_enabled() && (opt matches Some(o) ==> o.spec_enabled())) || keep_roll
            >= spec_percent(75) ==> (picked_gene(base, opt, pick_roll, keep_roll) == base || (
        opt matches Some(o) && picked_gene(base, opt, pick_roll, keep_roll) == o)),
        base.spec_enabled() && (opt matches Some(o) ==> o.spec_enabled()) ==> picked_gene(
            base,
            opt,
            pick_roll,
            keep_roll,
        ).spec_enabled(),
{
    base.lemma_connection_spec(false, true, 0, 0, 0);
    base.lemma_connection_spec(true, true, 0, 0, 0);
    if let Some(o) = opt {
        o.lemma_connection_spec(false, true, 0, 0, 0);
        o.lemma_connection_spec(true, true, 0, 0, 0);
    }
}

/// Pick a gene for the child from `base` and, where the other parent has an aligned gene,
/// from that partner, for the given rolls (see [picked_gene]).
pub fn pick_gene_rolled<C: Connection>(base: &C, opt_conn: Option<C>, pick_roll: u64, keep_roll: u64) -> (c: C)
    ensures
        c == picked_gene(*base, opt_conn, pick_roll, keep_roll),
{
    let mut conn = match opt_conn {
        Some(r_conn) => if pick_roll < percent(50) {
            r_conn
        } else {
            *base
        },
        None => *base,
    };
    let keep = !base.enabled() || match opt_conn {
        Some(r_conn) => !r_conn.enabled(),
        None => false,
    };
    if keep && keep_roll < percent(75) {
        conn.disable();
    }
    conn
}

/// Pick a gene for the child from `base` and its aligned partner, drawing the pick roll only
/// when there is a partner and the keep-disabled roll only when it applies.
fn pick_gene<C: Connection>(base: &C, opt_conn: Option<C>, rng: &mut ThreadRng) -> (c: C)
    ensures
        is_pick_of(c, *base, opt_conn),
{
    let pick_roll = if opt_conn.is_some() {
        roll(rng)
    } else {
        0
    };
    let keep = !base.enabled() || match opt_conn {
        Some(r_conn) => !r_conn.enabled(),
        None => false,
    };
    let keep_roll = if keep {
        roll(rng)
    } else {
        u64::MAX
    };
    let c = pick_gene_rolled(base, opt_conn, pick_roll, keep_roll);
    proof {
        lemma_picked_gene_is_pick(*base, opt_conn, pick_roll, keep_roll);
    }
    c
}

/// The picks that crossover of equally fit parents makes, from positions `i` in `l` and `j`
/// in `r`: `(gene, aligned partner)` in walk order. Aligned genes are picked between; a gene
/// with no partner is taken on its own, the lower innovation id first.
pub open spec fn eq_steps<C: Connection>(l: Seq<C>, r: Seq<C>, i: int, j: int) -> Seq<(C, Option<C>)>
    decreases l.len() - i + r.len() - j,
{
    if i < 0 || j < 0 || i > l.len() || j > r.len() || (i == l.len() && j == r.len()) {
        seq![]
    } else if i == l.len() {
        seq![(r[j], None::<C>)] + eq_steps(l, r, i, j + 1)
    } else if j == r.len() {
        seq![(l[i], None::<C>)] + eq_steps(l, r, i + 1, j)
    } else if l[i].spec_inno() == r[j].spec_inno() {
        seq![(l[i], Some(r[j]))] + eq_steps(l, r, i + 1, j + 1)
    } else if l[i].spec_inno() < r[j].spec_inno() {
        seq![(l[i], None::<C>)] + eq_steps(l, r, i + 1, j)
    } else {
        seq![(r[j], None::<C>)] + eq_steps(l, r, i, j + 1)
    }
}

/// `res` is an outcome of picking along `steps`: one pick per step, in order.
pub open spec fn picks_along<C: Connection>(steps: Seq<(C, Option<C>)>, res: Seq<C>) -> bool {
    &&& res.len() == steps.len()
    &&& forall|k: int| 0 <= k < res.len() ==> #[trigger] is_pick_of(res[k], steps[k].0, steps[k].1)
}

/// Crossover of connections where `l` and `r` are equally fit: every gene of either parent is
/// inherited, aligned genes picked between.
fn crossover_eq<C: Connection>(l: &[C], r: &[C], rng: &mut ThreadRng) -> (cross: Vec<C>)
    ensures
        picks_along(eq_steps(l@, r@, 0, 0), cross@),
{
    let mut cross: Vec<C> = Vec::new();
    let mut l_idx: usize = 0;
    let mut r_idx: usize = 0;
    let ghost mut done: Seq<(C, Option<C>)> = seq![];
    while l_idx < l.len() || r_idx < r.len()
        invariant
            l_idx <= l@.len(),
            r_idx <= r@.len(),
            eq_steps(l@, r@, 0, 0) == done + eq_steps(l@, r@, l_idx as int, r_idx as int),
            picks_along(done, cross@),
        decreases l@.len() - l_idx + r@.len() - r_idx,
    {
        let ghost prev = cross@;
        let ghost step: (C, Option<C>);
        let c;
        if l_idx == l.len() {
            proof {
                step = (r@[r_idx as int], None::<C>);
            }
            c = pick_gene(&r[r_idx], None, rng);
            r_idx = r_idx + 1;
        } else if r_idx == r.len() {
            proof {
                step = (l@[l_idx as int], None::<C>);
            }
            c = pick_gene(&l[l_idx], None, rng);
            l_idx = l_idx + 1;
        } else {
            let l_inno = l[l_idx].inno();
            let r_inno = r[r_idx].inno();
            if l_inno == r_inno {
                proof {
                    step = (l@[l_idx as int], Some(r@[r_idx as int]));
                }
                c = pick_gene(&l[l_idx], Some(r[r_idx]), rng);
                l_idx = l_idx + 1;
                r_idx = r_idx + 1;
            } else if l_inno < r_inno {
                proof {
                    step = (l@[l_idx as int], None::<C>);
                }
                c = pick_gene(&l[l_idx], None, rng);
                l_idx = l_idx + 1;
            } else {
                proof {
                    step = (r@[r_idx as int], None::<C>);
                }
                c = pick_gene(&r[r_idx], None, rng);
                r_idx = r_idx + 1;
            }
        }
        cross.push(c);
        proof {
            assert(eq_steps(l@, r@, 0, 0) == (done + seq![step]) + eq_steps(
                l@,
                r@,
                l_idx as int,
                r_idx as int,
            ));
            done = done + seq![step];
            assert(picks_along(done, cross@)) by {
                assert forall|k: int| 0 <= k < cross@.len() implies #[trigger] is_pick_of(
                    cross@[k],
                    done[k].0,
                    done[k].1,
                ) by {
                    if k < cross@.len() - 1 {
                        assert(cross@[k] == prev[k]);
                    }
                }
            }
        }
    }
    proof {
        assert(eq_steps(l@, r@, l_idx as int, r_idx as int) =~= seq![]);
        assert(done =~= done + seq![]);
    }
    cross
}

/// Where the scan of `r` for a partner of a gene with id `key` stops, starting at `j`: the
/// first position at or after `j` whose id is not below `key`.
pub open spec fn ne_skip<C: Connection>(key: usize, r: Seq<C>, j: int) -> int
    decreases r.len() - j,
{
    if 0 <= j < r.len() && r[j].spec_inno() < key {
        ne_skip(key, r, j + 1)
    } else {
        j
    }
}

/// The partner that the scan finds for a gene with id `key` from position `j` of `r`.
pub open spec fn ne_partner<C: Connection>(key: usize, r: Seq<C>, j: int) -> Option<C> {
    let k = ne_skip(key, r, j);
    if 0 <= k < r.len() && r[k].spec_inno() == key {
        Some(r[k])
    } else {
        None
    }
}

/// The picks that crossover makes when `l` is fitter than `r`, from position `i` of `l` with
/// the scan of `r` at `j`: every gene of `l`, in order, with the partner the scan finds.
pub open spec fn ne_steps<C: Connection>(l: Seq<C>, r: Seq<C>, i: int, j: int) -> Seq<(C, Option<C>)>
    decreases l.len() - i,
{
    if i < 0 || i >= l.len() {
        seq![]
    } else {
        seq![(l[i], ne_partner(l[i].spec_inno(), r, j))] + ne_steps(
            l,
            r,
            i + 1,
            ne_skip(l[i].spec_inno(), r, j),
        )
    }
}

proof fn lemma_ne_skip_bounds<C: Connection>(key: usize, r: Seq<C>, j: int)
    requires
        0 <= j <= r.len(),
    ensures
        j <= ne_skip(key, r, j) <= r.len(),
    decreases r.len() - j,
{
    if j < r.len() && r[j].spec_inno() < key {
        lemma_ne_skip_bounds(key, r, j + 1);
    }
}

/// Crossover of connections where `l` is fitter than `r`: `l`'s genes are inherited in order,
/// each picked against the gene of `r` with the same innovation id, if the scan finds one.
fn crossover_ne<C: Connection>(l: &[C], r: &[C], rng: &mut ThreadRng) -> (cross: Vec<C>)
    ensures
        picks_along(ne_steps(l@, r@, 0, 0), cross@),
{
    let mut cross: Vec<C> = Vec::new();
    let mut r_idx: usize = 0;
    let mut l_idx: usize = 0;
    let ghost mut done: Seq<(C, Option<C>)> = seq![];
    while l_idx < l.len()
        invariant
            l_idx <= l@.len(),
            r_idx <= r@.len(),
            ne_steps(l@, r@, 0, 0) == done + ne_steps(l@, r@, l_idx as int, r_idx as int),
            picks_along(done, cross@),
        decreases l@.len() - l_idx,
    {
        let l_conn = &l[l_idx];
        let key = l_conn.inno();
        let ghost start = r_idx as int;
        proof {
            lemma_ne_skip_bounds(key, r@, start);
        }
        while r_idx < r.len() && r[r_idx].inno() < key
            invariant
                start <= r_idx <= r@.len(),
                ne_skip(key, r@, start) == ne_skip(key, r@, r_idx as int),
            decreases r@.len() - r_idx,
        {
            r_idx = r_idx + 1;
        }
        let opt = if r_idx < r.len() && r[r_idx].inno() == key {
            Some(r[r_idx])
        } else {
            None
        };
        let ghost step = (l@[l_idx as int], opt);
        let ghost prev = cross@;
        assert(opt == ne_partner(key, r@, start));
        let c = pick_gene(l_conn, opt, rng);
        cross.push(c);
        l_idx = l_idx + 1;
        proof {
            assert(ne_steps(l@, r@, 0, 0) == (done + seq![step]) + ne_steps(
                l@,
                r@,
                l_idx as int,
                r_idx as int,
            ));
            done = done + seq![step];
            assert forall|k: int| 0 <= k < cross@.len() implies #[trigger] is_pick_of(
                cross@[k],
                done[k].0,
                done[k].1,
            ) by {
                if k < cross@.len() - 1 {
                    assert(cross@[k] == prev[k]);
                }
            }
        }
    }
    proof {
        assert(ne_steps(l@, r@, l_idx as int, r_idx as int) =~= seq![]);
        assert(done =~= done + seq![]);
    }
    cross
}

/// The first position of `s` at or after `k` whose id exceeds `key`, or `s.len()`.
pub open spec fn first_above<C: Connection>(s: Seq<C>, key: usize, k: int) -> int
    decreases s.len() - k,
{
    if k < 0 || k >= s.len() {
        s.len() as int
    } else if s[k].spec_inno() > key {
        k
    } else {
        first_above(s, key, k + 1)
    }
}

/// `s` with `x` inserted after every element whose id is at most `x`'s.
pub open spec fn insert_by_inno<C: Connection>(s: Seq<C>, x: C) -> Seq<C> {
    s.insert(first_above(s, x.spec_inno(), 0), x)
}

/// The stable sort of `s` by innovation id: elements with equal ids keep their order.
pub open spec fn sort_by_inno<C: Connection>(s: Seq<C>) -> Seq<C>
    decreases s.len(),
{
    if s.len() == 0 {
        s
    } else {
        insert_by_inno(sort_by_inno(s.drop_last()), s.last())
    }
}

proof fn lemma_first_above_bounds<C: Connection>(s: Seq<C>, key: usize, k: int)
    requires
        0 <= k <= s.len(),
    ensures
        k <= first_above(s, key, k) <= s.len(),
        forall|m: int| k <= m < first_above(s, key, k) ==> s[m].spec_inno() <= key,
        first_above(s, key, k) < s.len() ==> s[first_above(s, key, k)].spec_inno() > key,
    decreases s.len() - k,
{
    if k < s.len() && s[k].spec_inno() <= key {
        lemma_first_above_bounds(s, key, k + 1);
    }
}

/// Sort connections by innovation id, stably.
fn sort_connections_by_inno<C: Connection>(v: Vec<C>) -> (out: Vec<C>)
    ensures
        out@ == sort_by_inno(v@),
{
    let mut out: Vec<C> = Vec::new();
    let mut i: usize = 0;
    while i < v.len()
        invariant
            i <= v@.len(),
            out@ == sort_by_inno(v@.take(i as int)),
        decreases v@.len() - i,
    {
        let x = v[i];
        let key = x.inno();
        let mut k: usize = 0;
        proof {
            lemma_first_above_bounds(out@, key, 0);
        }
        while k < out.len() && out[k].inno() <= key
            invariant
                k <= out@.len(),
                first_above(out@, key, 0) == first_above(out@, key, k as int),
            decreases out@.len() - k,
        {
            k = k + 1;
        }
        proof {
            assert(v@.take(i + 1).drop_last() =~= v@.take(i as int));
            assert(v@.take(i + 1).last() == x);
        }
        out.insert(k, x);
        i = i + 1;
    }
    assert(v@.take(v@.len() as int) =~= v@);
    out
}

/// Connections sorted by innovation id (non-decreasing).
pub open spec fn sorted_by_inno<C: Connection>(s: Seq<C>) -> bool {
    forall|a: int, b: int| 0 <= a <= b < s.len() ==> s[a].spec_inno() <= s[b].spec_inno()
}

#[verifier::rlimit(30)]
proof fn lemma_insert_by_inno<C: Connection>(s: Seq<C>, x: C)
    ensures
        insert_by_inno(s, x).to_multiset() =~= s.to_multiset().insert(x),
        insert_by_inno(s, x).len() == s.len() + 1,
        sorted_by_inno(s) ==> sorted_by_inno(insert_by_inno(s, x)),
        sorted_by_inno(s) && (forall|a: int| 0 <= a < s.len() ==> s[a].spec_inno() <= x.spec_inno())
            ==> insert_by_inno(s, x) == s.push(x),
{
    broadcast use vstd::seq_lib::group_to_multiset_ensures;

    let k = first_above(s, x.spec_inno(), 0);
    lemma_first_above_bounds(s, x.spec_inno(), 0);
    let t = s.insert(k, x);
    s.insert_ensures(k, x);
    assert(t == s.subrange(0, k).push(x) + s.subrange(k, s.len() as int));
    vstd::seq_lib::lemma_multiset_commutative(s.subrange(0, k).push(x), s.subrange(k, s.len() as int));
    vstd::seq_lib::lemma_multiset_commutative(s.subrange(0, k), s.subrange(k, s.len() as int));
    assert(s.subrange(0, k) + s.subrange(k, s.len() as int) =~= s);
    if sorted_by_inno(s) {
        assert forall|a: int, b: int| 0 <= a <= b < t.len() implies t[a].spec_inno() <= t[b].spec_inno() by {
            if b < k {
            } else if b == k {
                if a < k {
                }
            } else {
                if a == k {
                    assert(t[b] == s[b - 1]);
                } else if a < k {
                    assert(t[b] == s[b - 1]);
                } else {
                    assert(t[a] == s[a - 1] && t[b] == s[b - 1]);
                }
            }
        }
        if forall|a: int| 0 <= a < s.len() ==> s[a].spec_inno() <= x.spec_inno() {
            assert(k == s.len());
            assert(t =~= s.push(x));
        }
    }
}

/// Sorting by innovation id keeps exactly the same connections.
pub proof fn lemma_sort_by_inno_perm<C: Connection>(s: Seq<C>)
    ensures
        sort_by_inno(s).to_multiset() =~= s.to_multiset(),
        sort_by_inno(s).len() == s.len(),
        forall|x: C| #[trigger] sort_by_inno(s).contains(x) <==> s.contains(x),
    decreases s.len(),
{
    broadcast use vstd::seq_lib::group_to_multiset_ensures;

    if s.len() > 0 {
        lemma_sort_by_inno_perm(s.drop_last());
        lemma_insert_by_inno(sort_by_inno(s.drop_last()), s.last());
        assert(s =~= s.drop_last().push(s.last()));
    }
    assert forall|x: C| #[trigger] sort_by_inno(s).contains(x) <==> s.contains(x) by {
        assert(sort_by_inno(s).to_multiset().count(x) == s.to_multiset().count(x));
    }
}

/// Sorting by innovation id yields connections sorted by innovation id.
pub proof fn lemma_sort_by_inno_sorted<C: Connection>(s: Seq<C>)
    ensures
        sorted_by_inno(sort_by_inno(s)),
    decreases s.len(),
{
    if s.len() > 0 {
        lemma_sort_by_inno_sorted(s.drop_last());
        lemma_insert_by_inno(sort_by_inno(s.drop_last()), s.last());
    }
}

/// Sorting connections that are already sorted by innovation id changes nothing.
pub proof fn lemma_sort_by_inno_sorted_identity<C: Connection>(s: Seq<C>)
    requires
        sorted_by_inno(s),
    ensures
        sort_by_inno(s) == s,
    decreases s.len(),
{
    if s.len() > 0 {
        assert(sorted_by_inno(s.drop_last()));
        lemma_sort_by_inno_sorted_identity(s.drop_last());
        lemma_insert_by_inno(s.drop_last(), s.last());
        assert(s.drop_last().push(s.last()) =~= s);
    }
}

/// `x` is a connection of `l` or of `r`.
pub open spec fn from_parents<C: Connection>(x: C, l: Seq<C>, r: Seq<C>) -> bool {
    l.contains(x) || r.contains(x)
}

/// `c` is a gene of one of the parents `l` and `r`, possibly disabled.
pub open spec fn is_parent_gene<C: Connection>(c: C, l: Seq<C>, r: Seq<C>) -> bool {
    exists|p: C| #[trigger] from_parents(p, l, r) && (c == p || c == p.spec_with_enabled(false))
}

/// Every pick step offers genes of the parents, and an aligned partner shares the gene's
/// innovation id.
pub open spec fn steps_from_parents<C: Connection>(steps: Seq<(C, Option<C>)>, l: Seq<C>, r: Seq<C>) -> bool {
    forall|k: int|
        0 <= k < steps.len() ==> from_parents(#[trigger] steps[k].0, l, r) && (steps[k].1 matches Some(
            o,
        ) ==> from_parents(o, l, r) && o.spec_inno() == steps[k].0.spec_inno())
}

proof fn lemma_eq_steps_from_parents<C: Connection>(l: Seq<C>, r: Seq<C>, i: int, j: int)
    ensures
        steps_from_parents(eq_steps(l, r, i, j), l, r),
    decreases l.len() - i + r.len() - j,
{
    let st = eq_steps(l, r, i, j);
    if i < 0 || j < 0 || i > l.len() || j > r.len() || (i == l.len() && j == r.len()) {
    } else {
        let (head, rest) = if i == l.len() {
            lemma_eq_steps_from_parents(l, r, i, j + 1);
            ((r[j], None::<C>), eq_steps(l, r, i, j + 1))
        } else if j == r.len() {
            lemma_eq_steps_from_parents(l, r, i + 1, j);
            ((l[i], None::<C>), eq_steps(l, r, i + 1, j))
        } else if l[i].spec_inno() == r[j].spec_inno() {
            lemma_eq_steps_from_parents(l, r, i + 1, j + 1);
            ((l[i], Some(r[j])), eq_steps(l, r, i + 1, j + 1))
        } else if l[i].spec_inno() < r[j].spec_inno() {
            lemma_eq_steps_from_parents(l, r, i + 1, j);
            ((l[i], None::<C>), eq_steps(l, r, i + 1, j))
        } else {
            lemma_eq_steps_from_parents(l, r, i, j + 1);
            ((r[j], None::<C>), eq_steps(l, r, i, j + 1))
        };
        assert(st == seq![head] + rest);
        assert(from_parents(head.0, l, r));
        assert forall|k: int|
            0 <= k < st.len() implies from_parents(#[trigger] st[k].0, l, r) && (st[k].1 matches Some(
            o,
        ) ==> from_parents(o, l, r) && o.spec_inno() == st[k].0.spec_inno()) by {
            if k > 0 {
                let q = k - 1;
                assert(st[k] == rest[q]);
                assert(from_parents(rest[q].0, l, r));
            } else {
                assert(st[k] == head);
                if head.1 is Some {
                    assert(r.contains(r[j]));
                }
            }
        }
    }
}

proof fn lemma_ne_steps_from_parents<C: Connection>(l: Seq<C>, r: Seq<C>, i: int, j: int)
    ensures
        steps_from_parents(ne_steps(l, r, i, j), l, r),
        steps_from_parents(ne_steps(l, r, i, j), r, l),
        forall|k: int| 0 <= k < ne_steps(l, r, i, j).len() ==> l.contains(#[trigger] ne_steps(l, r, i, j)[k].0),
    decreases l.len() - i,
{
    let st = ne_steps(l, r, i, j);
    if i < 0 || i >= l.len() {
    } else {
        let key = l[i].spec_inno();
        lemma_ne_steps_from_parents(l, r, i + 1, ne_skip(key, r, j));
        let rest = ne_steps(l, r, i + 1, ne_skip(key, r, j));
        let head = (l[i], ne_partner(key, r, j));
        assert(st == seq![head] + rest);
        assert forall|k: int|
            0 <= k < st.len() implies from_parents(#[trigger] st[k].0, l, r) && (st[k].1 matches Some(
            o,
        ) ==> from_parents(o, l, r) && o.spec_inno() == st[k].0.spec_inno()) && from_parents(st[k].0, r, l)
            && (st[k].1 matches Some(o) ==> from_parents(o, r, l)) && l.contains(st[k].0) by {
            if k > 0 {
                let q = k - 1;
                assert(st[k] == rest[q]);
                assert(from_parents(rest[q].0, l, r));
            } else {
                assert(st[k] == head);
                assert(l.contains(l[i]));
                if head.1 is Some {
                    assert(r.contains(r[ne_skip(key, r, j)]));
                }
            }
        }
    }
}

proof fn lemma_crossover_steps_from_parents<C: Connection>(l: Seq<C>, r: Seq<C>, l_fit: Ordering)
    ensures
        steps_from_parents(crossover_steps(l, r, l_fit), l, r),
{
    match l_fit {
        Ordering::Equal => lemma_eq_steps_from_parents(l, r, 0, 0),
        Ordering::Less => lemma_ne_steps_from_parents(r, l, 0, 0),
        Ordering::Greater => lemma_ne_steps_from_parents(l, r, 0, 0),
    }
}

/// Every gene of a crossover child is a gene of one of its parents, possibly disabled.
pub proof fn lemma_crossover_genes_from_parents<C: Connection>(child: Seq<C>, l: Seq<C>, r: Seq<C>, l_fit: Ordering)
    requires
        is_crossover_of(child, l, r, l_fit),
    ensures
        forall|k: int| 0 <= k < child.len() ==> is_parent_gene(#[trigger] child[k], l, r),
{
    let steps = crossover_steps(l, r, l_fit);
    let mid = choose|mid: Seq<C>| #[trigger] picks_along(steps, mid) && child == sort_by_inno(mid);
    lemma_crossover_steps_from_parents(l, r, l_fit);
    lemma_sort_by_inno_perm(mid);
    assert forall|k: int| 0 <= k < child.len() implies is_parent_gene(#[trigger] child[k], l, r) by {
        assert(child.contains(child[k]));
        let m = choose|m: int| 0 <= m < mid.len() && mid[m] == child[k];
        assert(is_pick_of(mid[m], steps[m].0, steps[m].1));
        let b = steps[m].0;
        assert(from_parents(b, l, r));
        match steps[m].1 {
            Some(o) => {
                assert(from_parents(o, l, r));
                if child[k] == o || child[k] == o.spec_with_enabled(false) {
                    assert(from_parents(o, l, r) && (child[k] == o || child[k] == o.spec_with_enabled(false)));
                } else {
                    assert(from_parents(b, l, r) && (child[k] == b || child[k] == b.spec_with_enabled(false)));
                }
            },
            None => {
                assert(from_parents(b, l, r) && (child[k] == b || child[k] == b.spec_with_enabled(false)));
            },
        }
    }
}

/// A pick keeps the innovation id of its gene, where the partner shares that id.
proof fn lemma_pick_keeps_inno<C: Connection>(c: C, base: C, opt: Option<C>)
    requires
        is_pick_of(c, base, opt),
        opt matches Some(o) ==> o.spec_inno() == base.spec_inno(),
    ensures
        c.spec_inno() == base.spec_inno(),
{
    base.lemma_connection_spec(false, false, 0, 0, 0);
    if let Some(o) = opt {
        o.lemma_connection_spec(false, false, 0, 0, 0);
    }
}

proof fn lemma_ne_steps_shape<C: Connection>(l: Seq<C>, r: Seq<C>, i: int, j: int)
    requires
        0 <= i <= l.len(),
    ensures
        ne_steps(l, r, i, j).len() == l.len() - i,
        forall|k: int| 0 <= k < l.len() - i ==> (#[trigger] ne_steps(l, r, i, j)[k]).0 == l[i + k],
        forall|k: int|
            0 <= k < l.len() - i ==> ((#[trigger] ne_steps(l, r, i, j)[k]).1 matches Some(o)
                ==> r.contains(o)),
    decreases l.len() - i,
{
    if i < l.len() {
        let key = l[i].spec_inno();
        let next = ne_skip(key, r, j);
        lemma_ne_steps_shape(l, r, i + 1, next);
        let st = ne_steps(l, r, i, j);
        let rest = ne_steps(l, r, i + 1, next);
        assert(st == seq![(l[i], ne_partner(key, r, j))] + rest);
        assert forall|k: int| 0 <= k < l.len() - i implies (#[trigger] st[k]).0 == l[i + k] && (
        st[k].1 matches Some(o) ==> r.contains(o)) by {
            if k > 0 {
                assert(st[k] == rest[k - 1]);
            } else if st[0].1 is Some {
                assert(r.contains(r[ne_skip(key, r, j)]));
            }
        }
    }
}

/// When `l` is the fitter parent, the child carries exactly `l`'s innovation ids: one gene
/// for each of `l`'s genes, every child id is one of `l`'s, and every id of `l` is the child's.
pub proof fn lemma_crossover_fitter_ids<C: Connection>(child: Seq<C>, l: Seq<C>, r: Seq<C>)
    requires
        is_crossover_of(child, l, r, Ordering::Greater),
    ensures
        child.len() == l.len(),
        forall|k: int| 0 <= k < child.len() ==> innos(l).contains(#[trigger] child[k].spec_inno()),
        forall|m: int| 0 <= m < l.len() ==> innos(child).contains(#[trigger] l[m].spec_inno()),
{
    let steps = crossover_steps(l, r, Ordering::Greater);
    let mid = choose|mid: Seq<C>| #[trigger] picks_along(steps, mid) && child == sort_by_inno(mid);
    lemma_ne_steps_shape(l, r, 0, 0);
    lemma_ne_steps_from_parents(l, r, 0, 0);
    lemma_sort_by_inno_perm(mid);
    assert(mid.len() == l.len());
    assert forall|m: int| 0 <= m < mid.len() implies (#[trigger] mid[m]).spec_inno() == l[m].spec_inno() by {
        assert(is_pick_of(mid[m], steps[m].0, steps[m].1));
        assert(steps[m].0 == l[0 + m]);
        lemma_pick_keeps_inno(mid[m], steps[m].0, steps[m].1);
    }
    assert forall|k: int| 0 <= k < child.len() implies innos(l).contains(
        #[trigger] child[k].spec_inno(),
    ) by {
        assert(child.contains(child[k]));
        let m = choose|m: int| 0 <= m < mid.len() && mid[m] == child[k];
        assert(mid[m].spec_inno() == l[m].spec_inno());
        assert(innos(l)[m] == l[m].spec_inno());
    }
    assert forall|m: int| 0 <= m < l.len() implies innos(child).contains(#[trigger] l[m].spec_inno()) by {
        assert(mid[m].spec_inno() == l[m].spec_inno());
        assert(mid.contains(mid[m]));
        assert(sort_by_inno(mid).contains(mid[m]));
        let k = choose|k: int| 0 <= k < child.len() && child[k] == mid[m];
        assert(innos(child)[k] == l[m].spec_inno());
    }
}

/// Every gene of `l` from `i` on and of `r` from `j` on has its innovation id on the gene of
/// some step of [eq_steps].
proof fn lemma_eq_steps_cover<C: Connection>(l: Seq<C>, r: Seq<C>, i: int, j: int)
    requires
        0 <= i <= l.len(),
        0 <= j <= r.len(),
    ensures
        forall|a: int|
            #![trigger l[a]]
            i <= a < l.len() ==> exists|k: int|
                0 <= k < eq_steps(l, r, i, j).len() && (#[trigger] eq_steps(l, r, i, j)[k]).0.spec_inno()
                    == l[a].spec_inno(),
        forall|b: int|
            #![trigger r[b]]
            j <= b < r.len() ==> exists|k: int|
                0 <= k < eq_steps(l, r, i, j).len() && (#[trigger] eq_steps(l, r, i, j)[k]).0.spec_inno()
                    == r[b].spec_inno(),
    decreases l.len() - i + r.len() - j,
{
    let st = eq_steps(l, r, i, j);
    if i == l.len() && j == r.len() {
    } else {
        let (ni, nj) = if i == l.len() {
            (i, j + 1)
        } else if j == r.len() {
            (i + 1, j)
        } else if l[i].spec_inno() == r[j].spec_inno() {
            (i + 1, j + 1)
        } else if l[i].spec_inno() < r[j].spec_inno() {
            (i + 1, j)
        } else {
            (i, j + 1)
        };
        lemma_eq_steps_cover(l, r, ni, nj);
        let rest = eq_steps(l, r, ni, nj);
        let head = st[0];
        assert(st == seq![head] + rest);
        assert forall|a: int| #![trigger l[a]] i <= a < l.len() implies exists|k: int|
            0 <= k < st.len() && (#[trigger] st[k]).0.spec_inno() == l[a].spec_inno() by {
            if a < ni {
                assert(st[0].0.spec_inno() == l[a].spec_inno());
            } else {
                let k = choose|k: int| 0 <= k < rest.len() && (#[trigger] rest[k]).0.spec_inno() == l[a].spec_inno();
                assert(st[k + 1] == rest[k]);
            }
        }
        assert forall|b: int| #![trigger r[b]] j <= b < r.len() implies exists|k: int|
            0 <= k < st.len() && (#[trigger] st[k]).0.spec_inno() == r[b].spec_inno() by {
            if b < nj {
                assert(st[0].0.spec_inno() == r[b].spec_inno());
            } else {
                let k = choose|k: int| 0 <= k < rest.len() && (#[trigger] rest[k]).0.spec_inno() == r[b].spec_inno();
                assert(st[k + 1] == rest[k]);
            }
        }
    }
}

/// When the parents are equally fit, the child carries every innovation id of either parent,
/// and only those.
pub proof fn lemma_crossover_equal_ids<C: Connection>(child: Seq<C>, l: Seq<C>, r: Seq<C>)
    requires
        is_crossover_of(child, l, r, Ordering::Equal),
    ensures
        forall|m: int| 0 <= m < l.len() ==> innos(child).contains(#[trigger] l[m].spec_inno()),
        forall|m: int| 0 <= m < r.len() ==> innos(child).contains(#[trigger] r[m].spec_inno()),
        forall|k: int|
            0 <= k < child.len() ==> innos(l).contains(#[trigger] child[k].spec_inno()) || innos(
                r,
            ).contains(child[k].spec_inno()),
{
    let steps = crossover_steps(l, r, Ordering::Equal);
    let mid = choose|mid: Seq<C>| #[trigger] picks_along(steps, mid) && child == sort_by_inno(mid);
    lemma_eq_steps_cover(l, r, 0, 0);
    lemma_eq_steps_from_parents(l, r, 0, 0);
    lemma_sort_by_inno_perm(mid);
    assert forall|k: int| 0 <= k < mid.len() implies (#[trigger] mid[k]).spec_inno() == steps[k].0.spec_inno() by {
        assert(is_pick_of(mid[k], steps[k].0, steps[k].1));
        lemma_pick_keeps_inno(mid[k], steps[k].0, steps[k].1);
    }
    assert forall|m: int| 0 <= m < l.len() implies innos(child).contains(#[trigger] l[m].spec_inno()) by {
        let k = choose|k: int| 0 <= k < steps.len() && (#[trigger] steps[k]).0.spec_inno() == l[m].spec_inno();
        assert(mid[k].spec_inno() == l[m].spec_inno());
        assert(mid.contains(mid[k]));
        assert(sort_by_inno(mid).contains(mid[k]));
        let q = choose|q: int| 0 <= q < child.len() && child[q] == mid[k];
        assert(innos(child)[q] == l[m].spec_inno());
    }
    assert forall|m: int| 0 <= m < r.len() implies innos(child).contains(#[trigger] r[m].spec_inno()) by {
        let k = choose|k: int| 0 <= k < steps.len() && (#[trigger] steps[k]).0.spec_inno() == r[m].spec_inno();
        assert(mid[k].spec_inno() == r[m].spec_inno());
        assert(mid.contains(mid[k]));
        assert(sort_by_inno(mid).contains(mid[k]));
        let q = choose|q: int| 0 <= q < child.len() && child[q] == mid[k];
        assert(innos(child)[q] == r[m].spec_inno());
    }
    lemma_crossover_genes_from_parents(child, l, r, Ordering::Equal);
    assert forall|k: int| 0 <= k < child.len() implies innos(l).contains(#[trigger] child[k].spec_inno())
        || innos(r).contains(child[k].spec_inno()) by {
        assert(is_parent_gene(child[k], l, r));
        let p = choose|p: C| #[trigger] from_parents(p, l, r) && (child[k] == p || child[k]
            == p.spec_with_enabled(false));
        p.lemma_connection_spec(false, false, 0, 0, 0);
        if l.contains(p) {
            let m = choose|m: int| 0 <= m < l.len() && l[m] == p;
            assert(innos(l)[m] == child[k].spec_inno());
        } else {
            let m = choose|m: int| 0 <= m < r.len() && r[m] == p;
            assert(innos(r)[m] == child[k].spec_inno());
        }
    }
}

/// Genes of `l` and `r` with the same innovation id run along the same path.
pub open spec fn ids_agree<C: Connection>(l: Seq<C>, r: Seq<C>) -> bool {
    forall|i: int, j: int|
        0 <= i < l.len() && 0 <= j < r.len() && #[trigger] l[i].spec_inno() == #[trigger] r[j].spec_inno()
            ==> l[i].spec_from() == r[j].spec_from() && l[i].spec_target() == r[j].spec_target()
}

/// When `l` is the fitter parent and genes with the same id run along the same path in both
/// parents, the child's genes run along exactly the paths of `l`'s genes.
pub proof fn lemma_crossover_fitter_paths<C: Connection>(child: Seq<C>, l: Seq<C>, r: Seq<C>)
    requires
        is_crossover_of(child, l, r, Ordering::Greater),
        ids_agree(l, r),
    ensures
        forall|k: int|
            0 <= k < child.len() ==> exists|m: int|
                0 <= m < l.len() && (#[trigger] child[k]).spec_from() == l[m].spec_from()
                    && child[k].spec_target() == l[m].spec_target(),
        forall|m: int|
            0 <= m < l.len() ==> exists|k: int|
                0 <= k < child.len() && child[k].spec_from() == (#[trigger] l[m]).spec_from()
                    && child[k].spec_target() == l[m].spec_target(),
{
    let steps = crossover_steps(l, r, Ordering::Greater);
    let mid = choose|mid: Seq<C>| #[trigger] picks_along(steps, mid) && child == sort_by_inno(mid);
    lemma_ne_steps_shape(l, r, 0, 0);
    lemma_ne_steps_from_parents(l, r, 0, 0);
    lemma_sort_by_inno_perm(mid);
    assert(mid.len() == l.len());
    assert forall|m: int| 0 <= m < mid.len() implies (#[trigger] mid[m]).spec_from() == l[m].spec_from()
        && mid[m].spec_target() == l[m].spec_target() by {
        assert(is_pick_of(mid[m], steps[m].0, steps[m].1));
        assert(steps[m].0 == l[0 + m]);
        l[m].lemma_connection_spec(false, false, 0, 0, 0);
        if let Some(o) = steps[m].1 {
            o.lemma_connection_spec(false, false, 0, 0, 0);
            assert(o.spec_inno() == l[m].spec_inno());
            assert(r.contains(o));
            let j = choose|j: int| 0 <= j < r.len() && r[j] == o;
            assert(l[m].spec_inno() == r[j].spec_inno());
        }
    }
    assert forall|k: int| 0 <= k < child.len() implies exists|m: int|
        0 <= m < l.len() && (#[trigger] child[k]).spec_from() == l[m].spec_from()
            && child[k].spec_target() == l[m].spec_target() by {
        assert(child.contains(child[k]));
        let m = choose|m: int| 0 <= m < mid.len() && mid[m] == child[k];
        assert(mid[m].spec_from() == l[m].spec_from());
    }
    assert forall|m: int| 0 <= m < l.len() implies exists|k: int|
        0 <= k < child.len() && child[k].spec_from() == (#[trigger] l[m]).spec_from()
            && child[k].spec_target() == l[m].spec_target() by {
        assert(mid[m].spec_from() == l[m].spec_from());
        assert(mid.contains(mid[m]));
        assert(sort_by_inno(mid).contains(mid[m]));
        let k = choose|k: int| 0 <= k < child.len() && child[k] == mid[m];
    }
}

/// When `r` is the fitter parent, the child carries exactly `r`'s innovation ids.
pub proof fn lemma_crossover_fitter_ids_right<C: Connection>(child: Seq<C>, l: Seq<C>, r: Seq<C>)
    requires
        is_crossover_of(child, l, r, Ordering::Less),
    ensures
        child.len() == r.len(),
        forall|k: int| 0 <= k < child.len() ==> innos(r).contains(#[trigger] child[k].spec_inno()),
        forall|m: int| 0 <= m < r.len() ==> innos(child).contains(#[trigger] r[m].spec_inno()),
{
    assert(crossover_steps(l, r, Ordering::Less) == crossover_steps(r, l, Ordering::Greater));
    lemma_crossover_fitter_ids(child, r, l);
}

/// Connections strictly increasing by innovation id.
pub open spec fn increasing_innos<C: Connection>(s: Seq<C>) -> bool {
    forall|a: int, b: int| 0 <= a < b < s.len() ==> s[a].spec_inno() < s[b].spec_inno()
}

/// When `l` is the fitter parent and its genes increase strictly by innovation id, the
/// child's innovation ids are exactly `l`'s, in the same order.
pub proof fn lemma_crossover_fitter_innos<C: Connection>(child: Seq<C>, l: Seq<C>, r: Seq<C>)
    requires
        is_crossover_of(child, l, r, Ordering::Greater),
        increasing_innos(l),
    ensures
        innos(child) == innos(l),
        sorted_by_inno(child),
{
    let steps = crossover_steps(l, r, Ordering::Greater);
    let mid = choose|mid: Seq<C>| #[trigger] picks_along(steps, mid) && child == sort_by_inno(mid);
    lemma_ne_steps_shape(l, r, 0, 0);
    lemma_ne_steps_from_parents(l, r, 0, 0);
    assert(mid.len() == l.len());
    assert forall|m: int| 0 <= m < mid.len() implies (#[trigger] mid[m]).spec_inno() == l[m].spec_inno() by {
        assert(is_pick_of(mid[m], steps[m].0, steps[m].1));
        assert(steps[m].0 == l[0 + m]);
        lemma_pick_keeps_inno(mid[m], steps[m].0, steps[m].1);
    }
    assert forall|a: int, b: int| 0 <= a <= b < mid.len() implies mid[a].spec_inno() <= mid[b].spec_inno() by {
        assert(mid[a].spec_inno() == l[a].spec_inno());
        assert(mid[b].spec_inno() == l[b].spec_inno());
    }
    lemma_sort_by_inno_sorted_identity(mid);
    assert(child == mid);
    assert(innos(child) =~= innos(l));
}

/// Swapping the parents and reversing the fitness comparison keeps which genes are inherited:
/// a child of `l` and a fitter `r`, and a child of a fitter `r` and `l`, both carry exactly
/// `r`'s innovation ids in `r`'s order, when those increase strictly.
pub proof fn lemma_crossover_swap<C: Connection>(c1: Seq<C>, c2: Seq<C>, l: Seq<C>, r: Seq<C>)
    requires
        is_crossover_of(c1, l, r, Ordering::Less),
        is_crossover_of(c2, r, l, Ordering::Greater),
        increasing_innos(r),
    ensures
        innos(c1) == innos(r),
        innos(c2) == innos(r),
        sorted_by_inno(c1),
        sorted_by_inno(c2),
{
    assert(crossover_steps(l, r, Ordering::Less) == crossover_steps(r, l, Ordering::Greater));
    lemma_crossover_fitter_innos(c1, r, l);
    lemma_crossover_fitter_innos(c2, r, l);
}

/// The picks that [crossover] makes for the fitness comparison `l_fit` of `l` against `r`.
pub open spec fn crossover_steps<C: Connection>(l: Seq<C>, r: Seq<C>, l_fit: Ordering) -> Seq<(C, Option<C>)> {
    match l_fit {
        Ordering::Equal => eq_steps(l, r, 0, 0),
        Ordering::Less => ne_steps(r, l, 0, 0),
        Ordering::Greater => ne_steps(l, r, 0, 0),
    }
}

/// `res` is a possible result of [crossover]: the stable sort by innovation id of one pick per
/// step of [crossover_steps].
pub open spec fn is_crossover_of<C: Connection>(res: Seq<C>, l: Seq<C>, r: Seq<C>, l_fit: Ordering) -> bool {
    exists|mid: Seq<C>| #[trigger]
        picks_along(crossover_steps(l, r, l_fit), mid) && res == sort_by_inno(mid)
}

/// Crossover reproduction across two connection slices `l` and `r`. `l_fit` says how fit `l`
/// is compared to `r`, which decides whose genes are inherited when they are not aligned:
/// both parents' when equal, else the fitter parent's. The child's genes come sorted by
/// innovation id.
pub fn crossover<C: Connection>(l: &[C], r: &[C], l_fit: Ordering, rng: &mut ThreadRng) -> (child: Vec<C>)
    ensures
        is_crossover_of(child@, l@, r@, l_fit),
{
    let usort = match l_fit {
        Ordering::Equal => crossover_eq(l, r, rng),
        Ordering::Less => crossover_ne(r, l, rng),
        Ordering::Greater => crossover_ne(l, r, rng),
    };
    let ghost mid = usort@;
    let child = sort_connections_by_inno(usort);
    assert(picks_along(crossover_steps(l@, r@, l_fit), mid) && child@ == sort_by_inno(mid));
    child
}

} // verus!
