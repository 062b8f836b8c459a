//! Half-stencil enumeration of nearby particle pairs.
//!
//! A force evaluation must visit every unordered pair of particles lying in
//! the same bin or in bins that share an edge or corner on the periodic
//! grid — each pair exactly once, or forces are double-counted or lost.
//! The sweep visits the bins in row-major order; in each bin it pairs the
//! members among themselves and against the members of a fixed asymmetric
//! stencil of four neighboring bins (row above: left, center, right; same
//! row: left), wrapping at the grid edges.  Each produced entry carries the
//! per-axis wrap shift that the force law must add to the second particle's
//! position (in multiples of the domain side) so that it sees the true
//! minimum-image separation.

use vstd::prelude::*;

use crate::grid::BinGrid;

verus! {

/// One unordered particle pair scheduled for force evaluation: particle
/// indices `i` and `j`, and the periodic image shift of particle `j`
/// relative to `i`, in multiples of the domain side, per axis.
#[derive(Clone, Copy, Debug, PartialEq, Eq, Structural)]
pub struct PairEntry {
    pub i: usize,
    pub j: usize,
    pub shift_x: i8,
    pub shift_y: i8,
}

/// The axis index one step backwards, wrapping at the edge.
pub open spec fn prev_wrap(g: int, a: int) -> int {
    if a == 0 {
        g - 1
    } else {
        a - 1
    }
}

/// The axis index one step forwards, wrapping at the edge.
pub open spec fn next_wrap(g: int, a: int) -> int {
    if a == g - 1 {
        0
    } else {
        a + 1
    }
}

/// Whether two axis indices are equal or one step apart on the wrapped axis.
pub open spec fn axis_adjacent(g: int, a: int, b: int) -> bool {
    b == a || b == prev_wrap(g, a) || b == next_wrap(g, a)
}

/// The periodic image shift, in multiples of the domain side, that takes an
/// axis-adjacent bin index `b` next to `a`: nonzero exactly when the two
/// bins meet across the wrapped edge.
pub open spec fn axis_shift(g: int, a: int, b: int) -> int {
    if a == 0 && b == g - 1 {
        -1
    } else if a == g - 1 && b == 0 {
        1
    } else {
        0
    }
}

/// Whether bin `w` is one of the four stencil bins inspected when bin `v`
/// is visited: row above (left, center, right) and same row left.
pub open spec fn stencil_member(g: int, v: (int, int), w: (int, int)) -> bool {
    ||| w == (prev_wrap(g, v.0), prev_wrap(g, v.1))
    ||| w == (prev_wrap(g, v.0), v.1)
    ||| w == (prev_wrap(g, v.0), next_wrap(g, v.1))
    ||| w == (v.0, prev_wrap(g, v.1))
}

/// Whether particle `p` is held somewhere in the grid.
pub open spec fn occurs(grid: BinGrid, p: usize) -> bool {
    exists|rc: (int, int)|
        0 <= rc.0 < grid.side() && 0 <= rc.1 < grid.side()
            && (#[trigger] grid.cells_view()[rc.0][rc.1]).contains(p)
}

/// The (row, column) of the bin holding particle `p`; unique when the grid
/// is a partition.
pub open spec fn home_cell(grid: BinGrid, p: usize) -> (int, int) {
    choose|rc: (int, int)|
        0 <= rc.0 < grid.side() && 0 <= rc.1 < grid.side()
            && (#[trigger] grid.cells_view()[rc.0][rc.1]).contains(p)
}

/// Whether two particles are held in the same bin or in bins adjacent on
/// the wrapped grid, so that the short-range force between them must be
/// evaluated.
pub open spec fn near(grid: BinGrid, p: usize, q: usize) -> bool {
    &&& occurs(grid, p)
    &&& occurs(grid, q)
    &&& axis_adjacent(grid.side(), home_cell(grid, p).0, home_cell(grid, q).0)
    &&& axis_adjacent(grid.side(), home_cell(grid, p).1, home_cell(grid, q).1)
}

/// Whether an entry covers the unordered pair `{p, q}`.
pub open spec fn entry_matches(e: PairEntry, p: usize, q: usize) -> bool {
    (e.i == p && e.j == q) || (e.i == q && e.j == p)
}

/// How many entries of `es` cover the unordered pair `{p, q}`.
pub open spec fn pair_count(es: Seq<PairEntry>, p: usize, q: usize) -> nat
    decreases es.len(),
{
    if es.len() == 0 {
        0
    } else {
        pair_count(es.drop_last(), p, q) + if entry_matches(es.last(), p, q) {
            1nat
        } else {
            0nat
        }
    }
}

/// A sound entry: two distinct particles of the grid, their bins adjacent
/// on the wrapped grid, and the recorded shifts equal to the periodic image
/// shifts between those bins.
pub open spec fn entry_ok(grid: BinGrid, e: PairEntry) -> bool {
    &&& e.i != e.j
    &&& occurs(grid, e.i)
    &&& occurs(grid, e.j)
    &&& axis_adjacent(grid.side(), home_cell(grid, e.i).0, home_cell(grid, e.j).0)
    &&& axis_adjacent(grid.side(), home_cell(grid, e.i).1, home_cell(grid, e.j).1)
    &&& e.shift_y == axis_shift(grid.side(), home_cell(grid, e.i).0, home_cell(grid, e.j).0)
    &&& e.shift_x == axis_shift(grid.side(), home_cell(grid, e.i).1, home_cell(grid, e.j).1)
}

/// No value appears twice in the sequence.
pub open spec fn distinct_seq(s: Seq<usize>) -> bool {
    forall|k1: int, k2: int| 0 <= k1 < k2 < s.len() ==> s[k1] != s[k2]
}

/// No value appears in both sequences.
pub open spec fn disjoint_seq(a: Seq<usize>, b: Seq<usize>) -> bool {
    forall|p: usize| !(#[trigger] a.contains(p) && #[trigger] b.contains(p))
}

/// Appending one entry raises the count of exactly the pair it covers.
proof fn lemma_pair_count_push(es: Seq<PairEntry>, e: PairEntry, p: usize, q: usize)
    ensures
        pair_count(es.push(e), p, q) == pair_count(es, p, q) + if entry_matches(e, p, q) {
            1nat
        } else {
            0nat
        },
{
    assert(es.push(e).drop_last() =~= es);
    assert(es.push(e).last() == e);
}

/// The empty schedule covers no pair.
proof fn lemma_pair_count_empty(p: usize, q: usize)
    ensures
        pair_count(Seq::<PairEntry>::empty(), p, q) == 0,
{
}

/// Membership in a distinct sequence splits exactly one way around
/// position `k`: in the prefix, at `k`, or in the suffix.
proof fn lemma_distinct_split(s: Seq<usize>, k: int, x: usize)
    requires
        distinct_seq(s),
        0 <= k < s.len(),
    ensures
        s.contains(x) <==> (s.take(k).contains(x) || x == s[k] || s.subrange(
            k + 1,
            s.len() as int,
        ).contains(x)),
        !(s.take(k).contains(x) && x == s[k]),
        !(s.take(k).contains(x) && s.subrange(k + 1, s.len() as int).contains(x)),
        !(x == s[k] && s.subrange(k + 1, s.len() as int).contains(x)),
{
    let n = s.len() as int;
    if s.contains(x) {
        let u = choose|u: int| 0 <= u < n && #[trigger] s[u] == x;
        if u < k {
            assert(s.take(k)[u] == x);
            assert(s.take(k).contains(x));
        } else if u > k {
            assert(s.subrange(k + 1, n)[u - k - 1] == x);
            assert(s.subrange(k + 1, n).contains(x));
        }
    }
    if s.take(k).contains(x) {
        let u = choose|u: int| 0 <= u < k && #[trigger] s.take(k)[u] == x;
        assert(s[u] == x);
        assert(s.contains(x));
        assert(x != s[k]);
        if s.subrange(k + 1, n).contains(x) {
            let v = choose|v: int| 0 <= v < n - k - 1 && #[trigger] s.subrange(k + 1, n)[v] == x;
            assert(s[k + 1 + v] == x);
        }
    }
    if s.subrange(k + 1, n).contains(x) {
        let v = choose|v: int| 0 <= v < n - k - 1 && #[trigger] s.subrange(k + 1, n)[v] == x;
        assert(s[k + 1 + v] == x);
        assert(s.contains(x));
        assert(x != s[k]);
    }
    if x == s[k] {
        assert(s.contains(x));
    }
}

/// Append to `out` one entry for every pair of a member of `a` with a
/// member of `b`, oriented `a`-first, carrying the given shifts.
fn cross_pairs(out: &mut Vec<PairEntry>, a: &Vec<usize>, b: &Vec<usize>, sx: i8, sy: i8)
    requires
        distinct_seq(a@),
        distinct_seq(b@),
        disjoint_seq(a@, b@),
    ensures
        final(out)@.len() >= old(out)@.len(),
        forall|t: int| 0 <= t < old(out)@.len() ==> final(out)@[t] == old(out)@[t],
        forall|t: int|
            old(out)@.len() <= t < final(out)@.len() ==> a@.contains((#[trigger] final(out)@[t]).i)
                && b@.contains(final(out)@[t].j) && final(out)@[t].i != final(out)@[t].j
                && final(out)@[t].shift_x == sx && final(out)@[t].shift_y == sy,
        forall|p: usize, q: usize|
            p != q ==> #[trigger] pair_count(final(out)@, p, q) == pair_count(old(out)@, p, q) + if (
            a@.contains(p) && b@.contains(q)) || (a@.contains(q) && b@.contains(p)) {
                1nat
            } else {
                0nat
            },
{
    let ghost orig = out@;
    let na = a.len();
    let nb = b.len();
    for ka in 0..na
        invariant
            na == a@.len(),
            nb == b@.len(),
            distinct_seq(a@),
            distinct_seq(b@),
            disjoint_seq(a@, b@),
            out@.len() >= orig.len(),
            forall|t: int| 0 <= t < orig.len() ==> out@[t] == orig[t],
            forall|t: int|
                orig.len() <= t < out@.len() ==> a@.contains((#[trigger] out@[t]).i) && b@.contains(
                    out@[t].j,
                ) && out@[t].i != out@[t].j && out@[t].shift_x == sx && out@[t].shift_y == sy,
            forall|p: usize, q: usize|
                p != q ==> #[trigger] pair_count(out@, p, q) == pair_count(orig, p, q) + if (
                a@.take(ka as int).contains(p) && b@.contains(q)) || (a@.take(ka as int).contains(q)
                    && b@.contains(p)) {
                    1nat
                } else {
                    0nat
                },
    {
        let ghost round = out@;
        let ai = a[ka];
        for kb in 0..nb
            invariant
                na == a@.len(),
                nb == b@.len(),
                ka < na,
                ai == a@[ka as int],
                distinct_seq(a@),
                distinct_seq(b@),
                disjoint_seq(a@, b@),
                out@.len() >= round.len(),
                round.len() >= orig.len(),
                forall|t: int| 0 <= t < round.len() ==> out@[t] == round[t],
                forall|t: int| 0 <= t < orig.len() ==> out@[t] == orig[t],
                forall|t: int|
                    orig.len() <= t < out@.len() ==> a@.contains((#[trigger] out@[t]).i)
                        && b@.contains(out@[t].j) && out@[t].i != out@[t].j && out@[t].shift_x == sx
                        && out@[t].shift_y == sy,
                forall|p: usize, q: usize|
                    p != q ==> #[trigger] pair_count(out@, p, q) == pair_count(round, p, q) + if (ai
                        == p && b@.take(kb as int).contains(q)) || (ai == q && b@.take(
                        kb as int,
                    ).contains(p)) {
                        1nat
                    } else {
                        0nat
                    },
        {
            let bj = b[kb];
            let ghost pre = out@;
            out.push(PairEntry { i: ai, j: bj, shift_x: sx, shift_y: sy });
            proof {
                assert(a@.contains(ai));
                assert(b@.contains(bj));
                assert(ai != bj);
                assert(b@.take(kb as int + 1) =~= b@.take(kb as int).push(bj));
                assert(!b@.take(kb as int).contains(bj)) by {
                    if b@.take(kb as int).contains(bj) {
                        let u = choose|u: int| 0 <= u < kb && #[trigger] b@.take(kb as int)[u] == bj;
                        assert(b@[u] == b@[kb as int]);
                    }
                }
                assert forall|p: usize, q: usize| p != q implies #[trigger] pair_count(out@, p, q)
                    == pair_count(round, p, q) + if (ai == p && b@.take(kb as int + 1).contains(q))
                    || (ai == q && b@.take(kb as int + 1).contains(p)) {
                    1nat
                } else {
                    0nat
                } by {
                    lemma_pair_count_push(pre, PairEntry { i: ai, j: bj, shift_x: sx, shift_y: sy },
                        p, q);
                    assert(b@.take(kb as int + 1).contains(q) <==> (b@.take(kb as int).contains(q)
                        || q == bj)) by {
                        if b@.take(kb as int).contains(q) {
                            let u = choose|u: int| 0 <= u < kb && #[trigger] b@.take(kb as int)[u] == q;
                            assert(b@.take(kb as int + 1)[u] == q);
                        }
                        if q == bj {
                            assert(b@.take(kb as int + 1)[kb as int] == q);
                        }
                        if b@.take(kb as int + 1).contains(q) {
                            let u = choose|u: int| 0 <= u <= kb && #[trigger] b@.take(kb as int + 1)[u] == q;
                            if u < kb {
                                assert(b@.take(kb as int)[u] == q);
                            }
                        }
                    }
                    assert(b@.take(kb as int + 1).contains(p) <==> (b@.take(kb as int).contains(p)
                        || p == bj)) by {
                        if b@.take(kb as int).contains(p) {
                            let u = choose|u: int| 0 <= u < kb && #[trigger] b@.take(kb as int)[u] == p;
                            assert(b@.take(kb as int + 1)[u] == p);
                        }
                        if p == bj {
                            assert(b@.take(kb as int + 1)[kb as int] == p);
                        }
                        if b@.take(kb as int + 1).contains(p) {
                            let u = choose|u: int| 0 <= u <= kb && #[trigger] b@.take(kb as int + 1)[u] == p;
                            if u < kb {
                                assert(b@.take(kb as int)[u] == p);
                            }
                        }
                    }
                }
            }
        }
        proof {
            assert(a@.take(ka as int + 1) =~= a@.take(ka as int).push(ai));
            assert(!a@.take(ka as int).contains(ai)) by {
                if a@.take(ka as int).contains(ai) {
                    let u = choose|u: int| 0 <= u < ka && #[trigger] a@.take(ka as int)[u] == ai;
                    assert(a@[u] == a@[ka as int]);
                }
            }
            assert(b@.take(nb as int) =~= b@);
            assert forall|p: usize, q: usize| p != q implies #[trigger] pair_count(out@, p, q)
                == pair_count(orig, p, q) + if (a@.take(ka as int + 1).contains(p) && b@.contains(q))
                || (a@.take(ka as int + 1).contains(q) && b@.contains(p)) {
                1nat
            } else {
                0nat
            } by {
                assert(a@.take(ka as int + 1).contains(p) <==> (a@.take(ka as int).contains(p) || p
                    == ai)) by {
                    if a@.take(ka as int).contains(p) {
                        let u = choose|u: int| 0 <= u < ka && #[trigger] a@.take(ka as int)[u] == p;
                        assert(a@.take(ka as int + 1)[u] == p);
                    }
                    if p == ai {
                        assert(a@.take(ka as int + 1)[ka as int] == p);
                    }
                    if a@.take(ka as int + 1).contains(p) {
                        let u = choose|u: int| 0 <= u <= ka && #[trigger] a@.take(ka as int + 1)[u] == p;
                        if u < ka {
                            assert(a@.take(ka as int)[u] == p);
                        }
                    }
                }
                assert(a@.take(ka as int + 1).contains(q) <==> (a@.take(ka as int).contains(q) || q
                    == ai)) by {
                    if a@.take(ka as int).contains(q) {
                        let u = choose|u: int| 0 <= u < ka && #[trigger] a@.take(ka as int)[u] == q;
                        assert(a@.take(ka as int + 1)[u] == q);
                    }
                    if q == ai {
                        assert(a@.take(ka as int + 1)[ka as int] == q);
                    }
                    if a@.take(ka as int + 1).contains(q) {
                        let u = choose|u: int| 0 <= u <= ka && #[trigger] a@.take(ka as int + 1)[u] == q;
                        if u < ka {
                            assert(a@.take(ka as int)[u] == q);
                        }
                    }
                }
                if a@.take(ka as int).contains(p) && a@.contains(p) {
                }
                if a@.take(ka as int).contains(p) && b@.contains(p) {
                    let u = choose|u: int| 0 <= u < ka && #[trigger] a@.take(ka as int)[u] == p;
                    assert(a@[u] == p);
                    assert(a@.contains(p));
                }
                if a@.take(ka as int).contains(q) && b@.contains(q) {
                    let u = choose|u: int| 0 <= u < ka && #[trigger] a@.take(ka as int)[u] == q;
                    assert(a@[u] == q);
                    assert(a@.contains(q));
                }
            }
        }
    }
    proof {
        assert(a@.take(na as int) =~= a@);
    }
}

/// Append to `out` one entry for every unordered pair of two distinct
/// members of `a`, with zero shifts.
fn intra_pairs(out: &mut Vec<PairEntry>, a: &Vec<usize>)
    requires
        distinct_seq(a@),
    ensures
        final(out)@.len() >= old(out)@.len(),
        forall|t: int| 0 <= t < old(out)@.len() ==> final(out)@[t] == old(out)@[t],
        forall|t: int|
            old(out)@.len() <= t < final(out)@.len() ==> a@.contains((#[trigger] final(out)@[t]).i)
                && a@.contains(final(out)@[t].j) && final(out)@[t].i != final(out)@[t].j
                && final(out)@[t].shift_x == 0 && final(out)@[t].shift_y == 0,
        forall|p: usize, q: usize|
            p != q ==> #[trigger] pair_count(final(out)@, p, q) == pair_count(old(out)@, p, q)
                + if a@.contains(p) && a@.contains(q) {
                1nat
            } else {
                0nat
            },
{
    let ghost orig = out@;
    let na = a.len();
    for ka in 0..na
        invariant
            na == a@.len(),
            distinct_seq(a@),
            out@.len() >= orig.len(),
            forall|t: int| 0 <= t < orig.len() ==> out@[t] == orig[t],
            forall|t: int|
                orig.len() <= t < out@.len() ==> a@.contains((#[trigger] out@[t]).i) && a@.contains(
                    out@[t].j,
                ) && out@[t].i != out@[t].j && out@[t].shift_x == 0 && out@[t].shift_y == 0,
            forall|p: usize, q: usize|
                p != q ==> #[trigger] pair_count(out@, p, q) == pair_count(orig, p, q) + if a@
                    .contains(p) && a@.contains(q) && (a@.take(ka as int).contains(p) || a@.take(
                    ka as int,
                ).contains(q)) {
                    1nat
                } else {
                    0nat
                },
    {
        let ghost round = out@;
        let ai = a[ka];
        let mut kb = ka + 1;
        while kb < na
            invariant
                na == a@.len(),
                ka < na,
                ka + 1 <= kb <= na,
                ai == a@[ka as int],
                distinct_seq(a@),
                out@.len() >= round.len(),
                round.len() >= orig.len(),
                forall|t: int| 0 <= t < round.len() ==> out@[t] == round[t],
                forall|t: int| 0 <= t < orig.len() ==> out@[t] == orig[t],
                forall|t: int|
                    orig.len() <= t < out@.len() ==> a@.contains((#[trigger] out@[t]).i)
                        && a@.contains(out@[t].j) && out@[t].i != out@[t].j && out@[t].shift_x == 0
                        && out@[t].shift_y == 0,
                forall|p: usize, q: usize|
                    p != q ==> #[trigger] pair_count(out@, p, q) == pair_count(round, p, q) + if (ai
                        == p && a@.subrange(ka as int + 1, kb as int).contains(q)) || (ai == q
                        && a@.subrange(ka as int + 1, kb as int).contains(p)) {
                        1nat
                    } else {
                        0nat
                    },
            decreases na - kb,
        {
            let bj = a[kb];
            let ghost pre = out@;
            out.push(PairEntry { i: ai, j: bj, shift_x: 0, shift_y: 0 });
            proof {
                assert(a@.contains(ai));
                assert(a@.contains(bj));
                assert(ai != bj);
                let lo = ka as int + 1;
                assert(a@.subrange(lo, kb as int + 1) =~= a@.subrange(lo, kb as int).push(bj));
                assert(!a@.subrange(lo, kb as int).contains(bj)) by {
                    if a@.subrange(lo, kb as int).contains(bj) {
                        let u = choose|u: int|
                            0 <= u < kb - lo && #[trigger] a@.subrange(lo, kb as int)[u] == bj;
                        assert(a@[lo + u] == a@[kb as int]);
                    }
                }
                assert forall|p: usize, q: usize| p != q implies #[trigger] pair_count(out@, p, q)
                    == pair_count(round, p, q) + if (ai == p && a@.subrange(lo, kb as int
                    + 1).contains(q)) || (ai == q && a@.subrange(lo, kb as int + 1).contains(p)) {
                    1nat
                } else {
                    0nat
                } by {
                    lemma_pair_count_push(pre, PairEntry { i: ai, j: bj, shift_x: 0, shift_y: 0 },
                        p, q);
                    assert(a@.subrange(lo, kb as int + 1).contains(q) <==> (a@.subrange(
                        lo,
                        kb as int,
                    ).contains(q) || q == bj)) by {
                        if a@.subrange(lo, kb as int).contains(q) {
                            let u = choose|u: int|
                                0 <= u < kb - lo && #[trigger] a@.subrange(lo, kb as int)[u] == q;
                            assert(a@.subrange(lo, kb as int + 1)[u] == q);
                        }
                        if q == bj {
                            assert(a@.subrange(lo, kb as int + 1)[kb as int - lo] == q);
                        }
                        if a@.subrange(lo, kb as int + 1).contains(q) {
                            let u = choose|u: int|
                                0 <= u <= kb - lo && #[trigger] a@.subrange(lo, kb as int + 1)[u] == q;
                            if u < kb - lo {
                                assert(a@.subrange(lo, kb as int)[u] == q);
                            }
                        }
                    }
                    assert(a@.subrange(lo, kb as int + 1).contains(p) <==> (a@.subrange(
                        lo,
                        kb as int,
                    ).contains(p) || p == bj)) by {
                        if a@.subrange(lo, kb as int).contains(p) {
                            let u = choose|u: int|
                                0 <= u < kb - lo && #[trigger] a@.subrange(lo, kb as int)[u] == p;
                            assert(a@.subrange(lo, kb as int + 1)[u] == p);
                        }
                        if p == bj {
                            assert(a@.subrange(lo, kb as int + 1)[kb as int - lo] == p);
                        }
                        if a@.subrange(lo, kb as int + 1).contains(p) {
                            let u = choose|u: int|
                                0 <= u <= kb - lo && #[trigger] a@.subrange(lo, kb as int + 1)[u] == p;
                            if u < kb - lo {
                                assert(a@.subrange(lo, kb as int)[u] == p);
                            }
                        }
                    }
                }
            }
            kb = kb + 1;
        }
        proof {
            let lo = ka as int + 1;
            assert forall|p: usize, q: usize| p != q implies #[trigger] pair_count(out@, p, q)
                == pair_count(orig, p, q) + if a@.contains(p) && a@.contains(q) && (a@.take(
                ka as int + 1,
            ).contains(p) || a@.take(ka as int + 1).contains(q)) {
                1nat
            } else {
                0nat
            } by {
                lemma_distinct_split(a@, ka as int, p);
                lemma_distinct_split(a@, ka as int, q);
                assert(a@.take(ka as int + 1) =~= a@.take(ka as int).push(ai));
                assert(a@.take(ka as int + 1).contains(p) <==> (a@.take(ka as int).contains(p) || p
                    == ai)) by {
                    if a@.take(ka as int).contains(p) {
                        let u = choose|u: int| 0 <= u < ka && #[trigger] a@.take(ka as int)[u] == p;
                        assert(a@.take(ka as int + 1)[u] == p);
                    }
                    if p == ai {
                        assert(a@.take(ka as int + 1)[ka as int] == p);
                    }
                    if a@.take(ka as int + 1).contains(p) {
                        let u = choose|u: int| 0 <= u <= ka && #[trigger] a@.take(ka as int + 1)[u] == p;
                        if u < ka {
                            assert(a@.take(ka as int)[u] == p);
                        }
                    }
                }
                assert(a@.take(ka as int + 1).contains(q) <==> (a@.take(ka as int).contains(q) || q
                    == ai)) by {
                    if a@.take(ka as int).contains(q) {
                        let u = choose|u: int| 0 <= u < ka && #[trigger] a@.take(ka as int)[u] == q;
                        assert(a@.take(ka as int + 1)[u] == q);
                    }
                    if q == ai {
                        assert(a@.take(ka as int + 1)[ka as int] == q);
                    }
                    if a@.take(ka as int + 1).contains(q) {
                        let u = choose|u: int| 0 <= u <= ka && #[trigger] a@.take(ka as int + 1)[u] == q;
                        if u < ka {
                            assert(a@.take(ka as int)[u] == q);
                        }
                    }
                }
            }
        }
    }
    proof {
        assert(a@.take(na as int) =~= a@);
    }
}


/// Whether the row-major sweep position `(er, ec)` lies strictly before the
/// position `(r, c)`.
pub open spec fn before_lex(e: (int, int), r: int, c: int) -> bool {
    e.0 < r || (e.0 == r && e.1 < c)
}

/// The bin whose visit emits the pair of bins `{a, b}`: the bin itself for
/// an intra-bin pair, else whichever of the two holds the other in its
/// stencil.
pub open spec fn emitter(g: int, a: (int, int), b: (int, int)) -> (int, int) {
    if a == b {
        a
    } else if stencil_member(g, a, b) {
        a
    } else {
        b
    }
}

/// Whether the visit of bin `(r, c)` emits the pair `{p, q}`.
pub open spec fn emit_here(grid: BinGrid, p: usize, q: usize, r: int, c: int) -> bool {
    near(grid, p, q) && emitter(grid.side(), home_cell(grid, p), home_cell(grid, q)) == (r, c)
}

/// Whether the pair `{p, q}` has been emitted by the time the row-major
/// sweep reaches position `(r, c)`.
pub open spec fn emitted(grid: BinGrid, p: usize, q: usize, r: int, c: int) -> bool {
    near(grid, p, q) && before_lex(
        emitter(grid.side(), home_cell(grid, p), home_cell(grid, q)),
        r,
        c,
    )
}

/// A particle found in a bin of a partitioned grid occurs in the grid, and
/// that bin is its unique home.
proof fn lemma_home(grid: BinGrid, p: usize, r: int, c: int)
    requires
        grid.wf(),
        grid.partitioned(),
        0 <= r < grid.side(),
        0 <= c < grid.side(),
        grid.cells_view()[r][c].contains(p),
    ensures
        occurs(grid, p),
        home_cell(grid, p) == (r, c),
{
    let w = (r, c);
    assert(0 <= w.0 < grid.side() && 0 <= w.1 < grid.side() && grid.cells_view()[w.0][
        w.1].contains(p));
    assert(occurs(grid, p));
    let h = home_cell(grid, p);
    assert(0 <= h.0 < grid.side() && 0 <= h.1 < grid.side() && grid.cells_view()[h.0][
        h.1].contains(p));
    let k1 = choose|k: int|
        0 <= k < grid.cells_view()[r][c].len() && #[trigger] grid.cells_view()[r][c][k] == p;
    let k2 = choose|k: int|
        0 <= k < grid.cells_view()[h.0][h.1].len() && #[trigger] grid.cells_view()[h.0][h.1][k]
            == p;
    assert(grid.cells_view()[r][c][k1] == grid.cells_view()[h.0][h.1][k2]);
}

/// The home bin of an occurring particle is in bounds and holds it.
proof fn lemma_home_props(grid: BinGrid, p: usize)
    requires
        occurs(grid, p),
    ensures
        0 <= home_cell(grid, p).0 < grid.side(),
        0 <= home_cell(grid, p).1 < grid.side(),
        grid.cells_view()[home_cell(grid, p).0][home_cell(grid, p).1].contains(p),
{
    let h = home_cell(grid, p);
    assert(0 <= h.0 < grid.side() && 0 <= h.1 < grid.side() && grid.cells_view()[h.0][
        h.1].contains(p));
}

/// The members of one bin of a partitioned grid are pairwise distinct.
proof fn lemma_cell_distinct(grid: BinGrid, r: int, c: int)
    requires
        grid.wf(),
        grid.partitioned(),
        0 <= r < grid.side(),
        0 <= c < grid.side(),
    ensures
        distinct_seq(grid.cells_view()[r][c]),
{
    let s = grid.cells_view()[r][c];
    assert forall|k1: int, k2: int| 0 <= k1 < k2 < s.len() implies s[k1] != s[k2] by {
        assert(grid.cells_view()[r][c][k1] == s[k1]);
        assert(grid.cells_view()[r][c][k2] == s[k2]);
    }
}

/// Two different bins of a partitioned grid share no member.
proof fn lemma_cells_disjoint(grid: BinGrid, r1: int, c1: int, r2: int, c2: int)
    requires
        grid.wf(),
        grid.partitioned(),
        0 <= r1 < grid.side(),
        0 <= c1 < grid.side(),
        0 <= r2 < grid.side(),
        0 <= c2 < grid.side(),
        !(r1 == r2 && c1 == c2),
    ensures
        disjoint_seq(grid.cells_view()[r1][c1], grid.cells_view()[r2][c2]),
{
    let a = grid.cells_view()[r1][c1];
    let b = grid.cells_view()[r2][c2];
    assert forall|p: usize| !(#[trigger] a.contains(p) && #[trigger] b.contains(p)) by {
        if a.contains(p) && b.contains(p) {
            let k1 = choose|k: int| 0 <= k < a.len() && #[trigger] a[k] == p;
            let k2 = choose|k: int| 0 <= k < b.len() && #[trigger] b[k] == p;
            assert(grid.cells_view()[r1][c1][k1] == grid.cells_view()[r2][c2][k2]);
        }
    }
}

/// Of two distinct bins adjacent on the wrapped grid, exactly one holds the
/// other in its four-bin stencil: the stencil offsets and their mirror
/// images split the eight neighbor directions without overlap.
proof fn lemma_emitter_unique(g: int, a: (int, int), b: (int, int))
    requires
        g >= 3,
        0 <= a.0 < g,
        0 <= a.1 < g,
        0 <= b.0 < g,
        0 <= b.1 < g,
        a != b,
        axis_adjacent(g, a.0, b.0),
        axis_adjacent(g, a.1, b.1),
    ensures
        stencil_member(g, a, b) <==> !stencil_member(g, b, a),
{
    assert(prev_wrap(g, a.0) != a.0 && next_wrap(g, a.0) != a.0);
    assert(prev_wrap(g, a.1) != a.1 && next_wrap(g, a.1) != a.1);
    assert(prev_wrap(g, a.0) != next_wrap(g, a.0));
    assert(prev_wrap(g, a.1) != next_wrap(g, a.1));
    assert(b.0 == prev_wrap(g, a.0) <==> a.0 == next_wrap(g, b.0));
    assert(b.0 == next_wrap(g, a.0) <==> a.0 == prev_wrap(g, b.0));
    assert(b.1 == prev_wrap(g, a.1) <==> a.1 == next_wrap(g, b.1));
    assert(b.1 == next_wrap(g, a.1) <==> a.1 == prev_wrap(g, b.1));
}

/// What the visit of bin `(r, c)` contributes for the pair `{p, q}`: the
/// intra-bin pass and the four stencil passes together cover the pair
/// exactly once if `(r, c)` is its emitting bin, and not at all otherwise.
proof fn lemma_cell_step(grid: BinGrid, p: usize, q: usize, r: int, c: int)
    requires
        grid.wf(),
        grid.partitioned(),
        grid.side() >= 3,
        0 <= r < grid.side(),
        0 <= c < grid.side(),
        p != q,
    ensures
        ({
            let g = grid.side();
            let v = grid.cells_view()[r][c];
            let n1 = grid.cells_view()[prev_wrap(g, r)][prev_wrap(g, c)];
            let n2 = grid.cells_view()[prev_wrap(g, r)][c];
            let n3 = grid.cells_view()[prev_wrap(g, r)][next_wrap(g, c)];
            let n4 = grid.cells_view()[r][prev_wrap(g, c)];
            let i0: nat = if v.contains(p) && v.contains(q) {
                1
            } else {
                0
            };
            let i1: nat = if (v.contains(p) && n1.contains(q)) || (v.contains(q) && n1.contains(
                p,
            )) {
                1
            } else {
                0
            };
            let i2: nat = if (v.contains(p) && n2.contains(q)) || (v.contains(q) && n2.contains(
                p,
            )) {
                1
            } else {
                0
            };
            let i3: nat = if (v.contains(p) && n3.contains(q)) || (v.contains(q) && n3.contains(
                p,
            )) {
                1
            } else {
                0
            };
            let i4: nat = if (v.contains(p) && n4.contains(q)) || (v.contains(q) && n4.contains(
                p,
            )) {
                1
            } else {
                0
            };
            i0 + i1 + i2 + i3 + i4 == if emit_here(grid, p, q, r, c) {
                1nat
            } else {
                0nat
            }
        }),
{
    let g = grid.side();
    let v = grid.cells_view()[r][c];
    let n1 = grid.cells_view()[prev_wrap(g, r)][prev_wrap(g, c)];
    let n2 = grid.cells_view()[prev_wrap(g, r)][c];
    let n3 = grid.cells_view()[prev_wrap(g, r)][next_wrap(g, c)];
    let n4 = grid.cells_view()[r][prev_wrap(g, c)];
    let w0 = (r, c);
    let w1 = (prev_wrap(g, r), prev_wrap(g, c));
    let w2 = (prev_wrap(g, r), c);
    let w3 = (prev_wrap(g, r), next_wrap(g, c));
    let w4 = (r, prev_wrap(g, c));
    assert(w1 != w0 && w2 != w0 && w3 != w0 && w4 != w0);
    assert(w1 != w2 && w1 != w3 && w1 != w4 && w2 != w3 && w2 != w4 && w3 != w4);
    if v.contains(p) {
        lemma_home(grid, p, r, c);
    }
    if v.contains(q) {
        lemma_home(grid, q, r, c);
    }
    if n1.contains(p) {
        lemma_home(grid, p, w1.0, w1.1);
    }
    if n1.contains(q) {
        lemma_home(grid, q, w1.0, w1.1);
    }
    if n2.contains(p) {
        lemma_home(grid, p, w2.0, w2.1);
    }
    if n2.contains(q) {
        lemma_home(grid, q, w2.0, w2.1);
    }
    if n3.contains(p) {
        lemma_home(grid, p, w3.0, w3.1);
    }
    if n3.contains(q) {
        lemma_home(grid, q, w3.0, w3.1);
    }
    if n4.contains(p) {
        lemma_home(grid, p, w4.0, w4.1);
    }
    if n4.contains(q) {
        lemma_home(grid, q, w4.0, w4.1);
    }
    if occurs(grid, p) && occurs(grid, q) {
        let hp = home_cell(grid, p);
        let hq = home_cell(grid, q);
        lemma_home_props(grid, p);
        lemma_home_props(grid, q);
        lemma_home(grid, p, hp.0, hp.1);
        lemma_home(grid, q, hq.0, hq.1);
        assert(v.contains(p) <==> hp == w0);
        assert(v.contains(q) <==> hq == w0);
        assert(n1.contains(p) <==> hp == w1);
        assert(n1.contains(q) <==> hq == w1);
        assert(n2.contains(p) <==> hp == w2);
        assert(n2.contains(q) <==> hq == w2);
        assert(n3.contains(p) <==> hp == w3);
        assert(n3.contains(q) <==> hq == w3);
        assert(n4.contains(p) <==> hp == w4);
        assert(n4.contains(q) <==> hq == w4);
        if near(grid, p, q) {
            if hp == hq {
                assert(emitter(g, hp, hq) == hp);
            } else {
                lemma_emitter_unique(g, hp, hq);
                if emitter(g, hp, hq) == w0 {
                    if stencil_member(g, hp, hq) {
                        assert(hp == w0);
                        assert(hq == w1 || hq == w2 || hq == w3 || hq == w4);
                    } else {
                        assert(hq == w0);
                        assert(stencil_member(g, hq, hp));
                        assert(hp == w1 || hp == w2 || hp == w3 || hp == w4);
                    }
                }
            }
        } else {
            assert(!(hp == w0 && hq == w0));
            assert(prev_wrap(g, r) == prev_wrap(g, r));
            if hp == w0 && (hq == w1 || hq == w2 || hq == w3 || hq == w4) {
                assert(axis_adjacent(g, hp.0, hq.0) && axis_adjacent(g, hp.1, hq.1));
            }
            if hq == w0 && (hp == w1 || hp == w2 || hp == w3 || hp == w4) {
                assert(axis_adjacent(g, hq.0, hp.0) && axis_adjacent(g, hq.1, hp.1));
                assert(axis_adjacent(g, hp.0, hq.0) && axis_adjacent(g, hp.1, hq.1));
            }
        }
    }
}

/// Walk the whole grid in row-major order and schedule every nearby
/// unordered particle pair exactly once: each bin's members among
/// themselves, then against the four stencil neighbors, with the periodic
/// image shifts that the wrapped edges demand.  The grid must have at
/// least three bins per side: on a smaller one the stencil aliases with
/// its mirror image and pairs would be visited twice.
pub fn half_stencil_pairs(grid: &BinGrid) -> (out: Vec<PairEntry>)
    requires
        grid.wf(),
        grid.partitioned(),
        grid.side() >= 3,
    ensures
        forall|t: int| 0 <= t < out@.len() ==> entry_ok(*grid, #[trigger] out@[t]),
        forall|p: usize, q: usize|
            p != q ==> #[trigger] pair_count(out@, p, q) == if near(*grid, p, q) {
                1nat
            } else {
                0nat
            },
{
    let g = grid.side_len();
    let mut out: Vec<PairEntry> = Vec::new();
    proof {
        assert forall|p: usize, q: usize| p != q implies #[trigger] pair_count(out@, p, q)
            == if emitted(*grid, p, q, 0, 0) {
            1nat
        } else {
            0nat
        } by {
            lemma_pair_count_empty(p, q);
        }
    }
    for r in 0..g
        invariant
            g == grid.side(),
            grid.wf(),
            grid.partitioned(),
            grid.side() >= 3,
            forall|t: int| 0 <= t < out@.len() ==> entry_ok(*grid, #[trigger] out@[t]),
            forall|p: usize, q: usize|
                p != q ==> #[trigger] pair_count(out@, p, q) == if emitted(
                    *grid,
                    p,
                    q,
                    r as int,
                    0,
                ) {
                    1nat
                } else {
                    0nat
                },
    {
        for c in 0..g
            invariant
                g == grid.side(),
                grid.wf(),
                grid.partitioned(),
                grid.side() >= 3,
                r < g,
                forall|t: int| 0 <= t < out@.len() ==> entry_ok(*grid, #[trigger] out@[t]),
                forall|p: usize, q: usize|
                    p != q ==> #[trigger] pair_count(out@, p, q) == if emitted(
                        *grid,
                        p,
                        q,
                        r as int,
                        c as int,
                    ) {
                        1nat
                    } else {
                        0nat
                    },
        {
            process_cell(&mut out, grid, r, c);
            proof {
                assert forall|p: usize, q: usize| p != q implies #[trigger] pair_count(out@, p, q)
                    == if emitted(*grid, p, q, r as int, c as int + 1) {
                    1nat
                } else {
                    0nat
                } by {
                    assert(emitted(*grid, p, q, r as int, c as int + 1) == (emitted(
                        *grid,
                        p,
                        q,
                        r as int,
                        c as int,
                    ) || emit_here(*grid, p, q, r as int, c as int)));
                }
            }
        }
        proof {
            assert forall|p: usize, q: usize| p != q implies #[trigger] pair_count(out@, p, q)
                == if emitted(*grid, p, q, r as int + 1, 0) {
                1nat
            } else {
                0nat
            } by {
                if near(*grid, p, q) {
                    lemma_home_props(*grid, p);
                    lemma_home_props(*grid, q);
                }
            }
        }
    }
    proof {
        assert forall|p: usize, q: usize| p != q implies #[trigger] pair_count(out@, p, q)
            == if near(*grid, p, q) {
            1nat
        } else {
            0nat
        } by {
            if near(*grid, p, q) {
                lemma_home_props(*grid, p);
                lemma_home_props(*grid, q);
            }
        }
    }
    out
}

/// Visit one bin: pair its members among themselves and against the four
/// stencil neighbor bins, recording the wrap shifts.
fn process_cell(out: &mut Vec<PairEntry>, grid: &BinGrid, r: usize, c: usize)
    requires
        grid.wf(),
        grid.partitioned(),
        grid.side() >= 3,
        r < grid.side(),
        c < grid.side(),
    ensures
        final(out)@.len() >= old(out)@.len(),
        forall|t: int| 0 <= t < old(out)@.len() ==> final(out)@[t] == old(out)@[t],
        forall|t: int|
            old(out)@.len() <= t < final(out)@.len() ==> entry_ok(*grid, #[trigger] final(out)@[t]),
        forall|p: usize, q: usize|
            p != q ==> #[trigger] pair_count(final(out)@, p, q) == pair_count(old(out)@, p, q)
                + if emit_here(*grid, p, q, r as int, c as int) {
                1nat
            } else {
                0nat
            },
{
    let g = grid.side_len();
    let rm = if r == 0 {
        g - 1
    } else {
        r - 1
    };
    let cm = if c == 0 {
        g - 1
    } else {
        c - 1
    };
    let cp = if c + 1 == g {
        0
    } else {
        c + 1
    };
    let sy: i8 = if r == 0 {
        -1
    } else {
        0
    };
    let sxm: i8 = if c == 0 {
        -1
    } else {
        0
    };
    let sxp: i8 = if c + 1 == g {
        1
    } else {
        0
    };
    proof {
        assert(rm as int == prev_wrap(g as int, r as int));
        assert(cm as int == prev_wrap(g as int, c as int));
        assert(cp as int == next_wrap(g as int, c as int));
        lemma_cell_distinct(*grid, r as int, c as int);
        lemma_cell_distinct(*grid, rm as int, cm as int);
        lemma_cell_distinct(*grid, rm as int, c as int);
        lemma_cell_distinct(*grid, rm as int, cp as int);
        lemma_cell_distinct(*grid, r as int, cm as int);
        lemma_cells_disjoint(*grid, r as int, c as int, rm as int, cm as int);
        lemma_cells_disjoint(*grid, r as int, c as int, rm as int, c as int);
        lemma_cells_disjoint(*grid, r as int, c as int, rm as int, cp as int);
        lemma_cells_disjoint(*grid, r as int, c as int, r as int, cm as int);
    }
    let ghost step0 = out@;
    let cur = grid.cell_ref(r, c);
    intra_pairs(out, cur);
    let ghost step1 = out@;
    cross_pairs(out, cur, grid.cell_ref(rm, cm), sxm, sy);
    let ghost step2 = out@;
    cross_pairs(out, cur, grid.cell_ref(rm, c), 0, sy);
    let ghost step3 = out@;
    cross_pairs(out, cur, grid.cell_ref(rm, cp), sxp, sy);
    let ghost step4 = out@;
    cross_pairs(out, cur, grid.cell_ref(r, cm), sxm, 0);
    proof {
        let gi = g as int;
        let ri = r as int;
        let ci = c as int;
        let v = grid.cells_view()[ri][ci];
        let n1 = grid.cells_view()[rm as int][cm as int];
        let n2 = grid.cells_view()[rm as int][ci];
        let n3 = grid.cells_view()[rm as int][cp as int];
        let n4 = grid.cells_view()[ri][cm as int];
        assert forall|t: int|
            step0.len() <= t < out@.len() implies entry_ok(*grid, #[trigger] out@[t]) by {
            let e = out@[t];
            assert(v.contains(e.i));
            lemma_home(*grid, e.i, ri, ci);
            if t < step1.len() {
                assert(v.contains(e.j));
                lemma_home(*grid, e.j, ri, ci);
            } else if t < step2.len() {
                assert(n1.contains(e.j));
                lemma_home(*grid, e.j, rm as int, cm as int);
            } else if t < step3.len() {
                assert(n2.contains(e.j));
                lemma_home(*grid, e.j, rm as int, ci);
            } else if t < step4.len() {
                assert(n3.contains(e.j));
                lemma_home(*grid, e.j, rm as int, cp as int);
            } else {
                assert(n4.contains(e.j));
                lemma_home(*grid, e.j, ri, cm as int);
            }
        }
        assert forall|p: usize, q: usize| p != q implies #[trigger] pair_count(out@, p, q)
            == pair_count(step0, p, q) + if emit_here(*grid, p, q, ri, ci) {
            1nat
        } else {
            0nat
        } by {
            lemma_cell_step(*grid, p, q, ri, ci);
        }
    }
}


/// Pair-schedule completeness over a raw configuration: when the grid was
/// built from per-particle cell coordinates and the schedule satisfies the
/// sweep's contract, the schedule covers each unordered pair of distinct
/// particles whose cells are equal or adjacent on the wrapped grid exactly
/// once, and covers no other pair — the guard against double-counted and
/// lost pairs at the domain seams.
pub proof fn lemma_schedule_covers_configuration(
    grid: BinGrid,
    coords: Seq<(usize, usize)>,
    entries: Seq<PairEntry>,
)
    requires
        grid.wf(),
        grid.side() >= 3,
        coords.len() <= usize::MAX,
        forall|r: int, c: int|
            0 <= r < grid.side() && 0 <= c < grid.side() ==> #[trigger] grid.cells_view()[r][c]
                == crate::grid::indices_in_cell(grid.side(), coords, r, c, coords.len() as int),
        forall|p: usize, q: usize|
            p != q ==> #[trigger] pair_count(entries, p, q) == if near(grid, p, q) {
                1nat
            } else {
                0nat
            },
    ensures
        forall|p: usize, q: usize|
            p != q ==> #[trigger] pair_count(entries, p, q) == if (p as int) < coords.len() && (
            q as int) < coords.len() && axis_adjacent(
                grid.side(),
                crate::grid::row_of(grid.side(), coords[p as int]),
                crate::grid::row_of(grid.side(), coords[q as int]),
            ) && axis_adjacent(
                grid.side(),
                crate::grid::col_of(grid.side(), coords[p as int]),
                crate::grid::col_of(grid.side(), coords[q as int]),
            ) {
                1nat
            } else {
                0nat
            },
{
    let g = grid.side();
    let n = coords.len() as int;
    assert forall|p: usize, q: usize| p != q implies #[trigger] pair_count(entries, p, q) == if (
    p as int) < n && (q as int) < n && axis_adjacent(
        g,
        crate::grid::row_of(g, coords[p as int]),
        crate::grid::row_of(g, coords[q as int]),
    ) && axis_adjacent(
        g,
        crate::grid::col_of(g, coords[p as int]),
        crate::grid::col_of(g, coords[q as int]),
    ) {
        1nat
    } else {
        0nat
    } by {
        lemma_particle_home(grid, coords, p);
        lemma_particle_home(grid, coords, q);
    }
}

/// In a grid built from per-particle cell coordinates, a particle index
/// below the particle count occurs, with its coordinate cell as home; any
/// other index does not occur.
proof fn lemma_particle_home(grid: BinGrid, coords: Seq<(usize, usize)>, p: usize)
    requires
        grid.wf(),
        coords.len() <= usize::MAX,
        forall|r: int, c: int|
            0 <= r < grid.side() && 0 <= c < grid.side() ==> #[trigger] grid.cells_view()[r][c]
                == crate::grid::indices_in_cell(grid.side(), coords, r, c, coords.len() as int),
    ensures
        occurs(grid, p) <==> (p as int) < coords.len(),
        (p as int) < coords.len() ==> home_cell(grid, p) == (
            crate::grid::row_of(grid.side(), coords[p as int]),
            crate::grid::col_of(grid.side(), coords[p as int]),
        ),
{
    let g = grid.side();
    let n = coords.len() as int;
    if (p as int) < n {
        let r = crate::grid::row_of(g, coords[p as int]);
        let c = crate::grid::col_of(g, coords[p as int]);
        crate::grid::lemma_cell_membership(g, coords, r, c, p);
        assert(0 <= r < g && 0 <= c < g) by {
            assert(g >= 1);
            assert(coords[p as int].0 as int % g == r);
            assert(coords[p as int].1 as int % g == c);
        }
        assert(grid.cells_view()[r][c].contains(p));
        crate::grid::lemma_grid_partitioned(grid, coords);
        lemma_home(grid, p, r, c);
    } else {
        if occurs(grid, p) {
            let h = home_cell(grid, p);
            assert(grid.cells_view()[h.0][h.1].contains(p));
            crate::grid::lemma_cell_membership(g, coords, h.0, h.1, p);
        }
    }
}

} // verus!
