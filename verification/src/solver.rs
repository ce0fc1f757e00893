//! Decomposing an arrangement into its permutation cycles.
//!
//! `solve` returns, for each cycle of the arrangement, the cycle's slots in
//! replay order: swapping each adjacent pair of listed slots, left to right,
//! puts every tile of that cycle back on its home slot.

use vstd::prelude::*;

use crate::perm::{
    apply_swap, identity_seq, is_perm, lemma_distinct_covering_len, lemma_distinct_len_le,
};

verus! {

/// `c` lists the slots of one permutation cycle of `a`, in replay order:
/// `a` holds, at each listed slot, the slot listed just before it, and at
/// the first listed slot the last one.
pub open spec fn is_cycle_of(a: Seq<u32>, c: Seq<u32>) -> bool {
    &&& c.len() >= 1
    &&& forall|j: int| 0 <= j < c.len() ==> (c[j] as int) < a.len()
    &&& forall|j: int| 1 <= j < c.len() ==> a[c[j] as int] == c[j - 1]
    &&& a[c[0] as int] == c[c.len() - 1]
}

/// Slot `x` appears somewhere in the list of cycles.
pub open spec fn in_cycles(cs: Seq<Seq<u32>>, x: u32) -> bool {
    exists|k: int, j: int| 0 <= k < cs.len() && 0 <= j < cs[k].len() && cs[k][j] == x
}

/// Slot `x` appears in one of the first `upto` cycles.
spec fn in_cycles_prefix(cs: Seq<Seq<u32>>, upto: int, x: u32) -> bool {
    exists|k: int, j: int| 0 <= k < upto && k < cs.len() && 0 <= j < cs[k].len() && cs[k][j] == x
}

/// No slot appears twice, neither within one cycle nor across two.
pub open spec fn cycles_disjoint(cs: Seq<Seq<u32>>) -> bool {
    forall|k1: int, j1: int, k2: int, j2: int|
        0 <= k1 < cs.len() && 0 <= j1 < cs[k1].len() && 0 <= k2 < cs.len() && 0 <= j2
            < cs[k2].len() && (k1 != k2 || j1 != j2) ==> cs[k1][j1] != cs[k2][j2]
}

/// A complete cycle decomposition of the arrangement `a`: a list of cycles
/// of `a` in which every slot of `a` appears exactly once.
pub open spec fn is_decomposition(a: Seq<u32>, cs: Seq<Seq<u32>>) -> bool {
    &&& forall|k: int| 0 <= k < cs.len() ==> is_cycle_of(a, cs[k])
    &&& cycles_disjoint(cs)
    &&& forall|x: u32| (x as int) < a.len() ==> in_cycles(cs, x)
}

/// If a slot's tile appears in a list of complete cycles of `a`, the slot
/// itself appears there too: a complete cycle contains, with each slot, the
/// slot that `a` maps to it.
proof fn lemma_cycles_closed(a: Seq<u32>, cs: Seq<Seq<u32>>, u: u32)
    requires
        a.no_duplicates(),
        forall|k: int| 0 <= k < cs.len() ==> is_cycle_of(a, cs[k]),
        (u as int) < a.len(),
        in_cycles(cs, a[u as int]),
    ensures
        in_cycles(cs, u),
{
    let (k, j) = choose|k: int, j: int|
        0 <= k < cs.len() && 0 <= j < cs[k].len() && cs[k][j] == a[u as int];
    let c = cs[k];
    assert(is_cycle_of(a, c));
    if j + 1 < c.len() {
        assert(a[c[j + 1] as int] == c[j]);
        assert(c[j + 1] as int == u as int);
        assert(cs[k][j + 1] == u);
    } else {
        assert(j == c.len() - 1);
        assert(a[c[0] as int] == c[j]);
        assert(c[0] as int == u as int);
        assert(cs[k][0] == u);
    }
}

/// The arrangement after replaying cycle `c`'s swaps from adjacent pair
/// `(t, t+1)` on: each listed pair of slots is swapped, left to right.
pub open spec fn replay_cycle_from(a: Seq<u32>, c: Seq<u32>, t: int) -> Seq<u32>
    decreases c.len() - t,
{
    if t < 0 || t + 1 >= c.len() {
        a
    } else {
        replay_cycle_from(apply_swap(a, c[t], c[t + 1]), c, t + 1)
    }
}

/// The arrangement after replaying all of cycle `c`'s swaps.
pub open spec fn replay_cycle(a: Seq<u32>, c: Seq<u32>) -> Seq<u32> {
    replay_cycle_from(a, c, 0)
}

/// The arrangement after replaying the swaps of cycles `k` and later.
pub open spec fn replay_cycles_from(a: Seq<u32>, cs: Seq<Seq<u32>>, k: int) -> Seq<u32>
    decreases cs.len() - k,
{
    if k < 0 || k >= cs.len() {
        a
    } else {
        replay_cycles_from(replay_cycle(a, cs[k]), cs, k + 1)
    }
}

/// The arrangement after replaying every cycle's swaps, in cycle order.
pub open spec fn replay_all(a: Seq<u32>, cs: Seq<Seq<u32>>) -> Seq<u32> {
    replay_cycles_from(a, cs, 0)
}

/// Some slot listed at index `from` or later of `c` is `x`.
spec fn slot_in(c: Seq<u32>, from: int, x: int) -> bool {
    exists|j: int| from <= j < c.len() && c[j] as int == x
}

proof fn lemma_replay_cycle_from(a: Seq<u32>, c: Seq<u32>, t: int)
    requires
        0 <= t < c.len(),
        c.no_duplicates(),
        forall|j: int| 0 <= j < c.len() ==> (c[j] as int) < a.len(),
        a[c[t] as int] == c[c.len() - 1],
        forall|j: int| #![trigger c[j]] t < j < c.len() ==> a[c[j] as int] == c[j - 1],
    ensures
        replay_cycle_from(a, c, t).len() == a.len(),
        forall|j: int| #![trigger c[j]]
            t <= j < c.len() ==> replay_cycle_from(a, c, t)[c[j] as int] == c[j],
        forall|x: int| #![trigger replay_cycle_from(a, c, t)[x]]
            0 <= x < a.len() && !slot_in(c, t, x) ==> replay_cycle_from(a, c, t)[x] == a[x],
    decreases c.len() - t,
{
    let r = replay_cycle_from(a, c, t);
    if t + 1 >= c.len() {
        assert(t == c.len() - 1);
        assert(r == a);
    } else {
        let x0 = c[t];
        let x1 = c[t + 1];
        let a1 = apply_swap(a, x0, x1);
        assert(x0 != x1);
        assert(a1[x1 as int] == a[x0 as int]);
        assert(a1[x0 as int] == a[x1 as int]);
        assert(a1[x0 as int] == c[t]);
        assert forall|j: int| #![trigger c[j]] t + 1 < j < c.len() implies a1[c[j] as int] == c[j
            - 1] by {
            assert(c[j] != x0 && c[j] != x1);
        }
        lemma_replay_cycle_from(a1, c, t + 1);
        let r1 = replay_cycle_from(a1, c, t + 1);
        assert(r == r1);
        assert(!slot_in(c, t + 1, x0 as int)) by {
            if slot_in(c, t + 1, x0 as int) {
                let j = choose|j: int| t + 1 <= j < c.len() && c[j] as int == x0 as int;
                assert(c[j] == c[t]);
                assert(false);
            }
        }
        assert(r1[x0 as int] == a1[x0 as int]);
        assert forall|x: int| 0 <= x < a.len() && !slot_in(c, t, x) implies #[trigger] r[x]
            == a[x] by {
            assert(!slot_in(c, t + 1, x)) by {
                if slot_in(c, t + 1, x) {
                    let j = choose|j: int| t + 1 <= j < c.len() && c[j] as int == x;
                    assert(slot_in(c, t, x));
                }
            }
            assert(c[t] as int != x && c[t + 1] as int != x);
            assert(a1[x] == a[x]);
        }
    }
}

proof fn lemma_replay_cycle(a: Seq<u32>, c: Seq<u32>)
    requires
        is_cycle_of(a, c),
        c.no_duplicates(),
    ensures
        replay_cycle(a, c).len() == a.len(),
        forall|j: int| #![trigger c[j]]
            0 <= j < c.len() ==> replay_cycle(a, c)[c[j] as int] == c[j],
        forall|x: int| #![trigger replay_cycle(a, c)[x]]
            0 <= x < a.len() && !slot_in(c, 0, x) ==> replay_cycle(a, c)[x] == a[x],
{
    lemma_replay_cycle_from(a, c, 0);
}

proof fn lemma_replay_cycles_from(a: Seq<u32>, b: Seq<u32>, cs: Seq<Seq<u32>>, k: int)
    requires
        0 <= k <= cs.len(),
        forall|i: int| 0 <= i < cs.len() ==> is_cycle_of(a, cs[i]),
        cycles_disjoint(cs),
        b.len() == a.len(),
        a.len() <= 0x1_0000_0000,
        forall|x: int| #![trigger b[x]]
            0 <= x < a.len() && in_cycles_prefix(cs, k, x as u32) ==> b[x] == x as u32,
        forall|x: int| #![trigger b[x]]
            0 <= x < a.len() && !in_cycles_prefix(cs, k, x as u32) ==> b[x] == a[x],
    ensures
        replay_cycles_from(b, cs, k).len() == a.len(),
        forall|x: int| #![trigger replay_cycles_from(b, cs, k)[x]]
            0 <= x < a.len() && in_cycles(cs, x as u32) ==> replay_cycles_from(b, cs, k)[x]
                == x as u32,
        forall|x: int| #![trigger replay_cycles_from(b, cs, k)[x]]
            0 <= x < a.len() && !in_cycles(cs, x as u32) ==> replay_cycles_from(b, cs, k)[x]
                == b[x],
    decreases cs.len() - k,
{
    let r = replay_cycles_from(b, cs, k);
    if k >= cs.len() {
        assert(r == b);
        assert forall|x: int| 0 <= x < a.len() && in_cycles(cs, x as u32) implies #[trigger] r[x]
            == x as u32 by {
            let (k1, j1) = choose|k1: int, j1: int|
                0 <= k1 < cs.len() && 0 <= j1 < cs[k1].len() && cs[k1][j1] == x as u32;
            assert(in_cycles_prefix(cs, k, x as u32));
        }
    } else {
        let c = cs[k];
        assert(is_cycle_of(a, c));
        assert(c.no_duplicates()) by {
            assert forall|i1: int, i2: int|
                0 <= i1 < c.len() && 0 <= i2 < c.len() && i1 != i2 implies c[i1] != c[i2] by {
                assert(cs[k][i1] != cs[k][i2]);
            }
        }
        assert forall|j: int| #![trigger c[j]] 0 <= j < c.len() implies b[c[j] as int]
            == a[c[j] as int] by {
            if in_cycles_prefix(cs, k, c[j]) {
                let (k1, j1) = choose|k1: int, j1: int|
                    0 <= k1 < k && k1 < cs.len() && 0 <= j1 < cs[k1].len() && cs[k1][j1] == c[j];
                assert(cs[k1][j1] != cs[k][j]);
                assert(false);
            }
        }
        assert(is_cycle_of(b, c));
        lemma_replay_cycle(b, c);
        let b1 = replay_cycle(b, c);
        assert(r == replay_cycles_from(b1, cs, k + 1));
        assert forall|x: int|
            0 <= x < a.len() && in_cycles_prefix(cs, k + 1, x as u32) implies #[trigger] b1[x]
            == x as u32 by {
            let (k1, j1) = choose|k1: int, j1: int|
                0 <= k1 < k + 1 && k1 < cs.len() && 0 <= j1 < cs[k1].len() && cs[k1][j1]
                    == x as u32;
            if k1 == k {
                assert(c[j1] as int == x);
                assert(b1[c[j1] as int] == c[j1]);
            } else {
                assert(in_cycles_prefix(cs, k, x as u32));
                assert(b[x] == x as u32);
                assert(!slot_in(c, 0, x)) by {
                    if slot_in(c, 0, x) {
                        let j2 = choose|j2: int| 0 <= j2 < c.len() && c[j2] as int == x;
                        assert(cs[k1][j1] != cs[k][j2]);
                        assert(false);
                    }
                }
                assert(b1[x] == b[x]);
            }
        }
        assert forall|x: int|
            0 <= x < a.len() && !in_cycles_prefix(cs, k + 1, x as u32) implies #[trigger] b1[x]
            == a[x] by {
            assert(!slot_in(c, 0, x)) by {
                if slot_in(c, 0, x) {
                    let j2 = choose|j2: int| 0 <= j2 < c.len() && c[j2] as int == x;
                    assert(in_cycles_prefix(cs, k + 1, x as u32));
                }
            }
            assert(!in_cycles_prefix(cs, k, x as u32)) by {
                if in_cycles_prefix(cs, k, x as u32) {
                    let (k1, j1) = choose|k1: int, j1: int|
                        0 <= k1 < k && k1 < cs.len() && 0 <= j1 < cs[k1].len() && cs[k1][j1]
                            == x as u32;
                    assert(in_cycles_prefix(cs, k + 1, x as u32));
                }
            }
            assert(b1[x] == b[x]);
        }
        lemma_replay_cycles_from(a, b1, cs, k + 1);
        assert forall|x: int| 0 <= x < a.len() && !in_cycles(cs, x as u32) implies #[trigger] r[x]
            == b[x] by {
            assert(!slot_in(c, 0, x)) by {
                if slot_in(c, 0, x) {
                    let j2 = choose|j2: int| 0 <= j2 < c.len() && c[j2] as int == x;
                    assert(in_cycles(cs, x as u32));
                }
            }
            assert(b1[x] == b[x]);
        }
        assert forall|x: int| 0 <= x < a.len() && in_cycles(cs, x as u32) implies #[trigger] r[x]
            == x as u32 by {
        }
    }
}

/// Replaying, for each cycle of a decomposition in turn, the swaps between
/// consecutive listed slots turns the permutation into the solved
/// arrangement.
pub proof fn lemma_replay_restores_identity(a: Seq<u32>, cs: Seq<Seq<u32>>)
    requires
        is_perm(a),
        is_decomposition(a, cs),
    ensures
        replay_all(a, cs) == identity_seq(a.len()),
{
    lemma_distinct_len_le(a, 0x1_0000_0000);
    lemma_replay_cycles_from(a, a, cs, 0);
    assert forall|x: int| 0 <= x < a.len() implies replay_all(a, cs)[x] == x as u32 by {
        assert((x as u32) as int == x);
        assert(in_cycles(cs, x as u32));
    }
    assert(replay_all(a, cs) =~= identity_seq(a.len()));
}

/// The total number of slots listed across the cycles.
pub open spec fn total_len(cs: Seq<Seq<u32>>) -> int
    decreases cs.len(),
{
    if cs.len() == 0 {
        0
    } else {
        total_len(cs.drop_last()) + cs.last().len()
    }
}

/// The number of swaps the cycles' replay issues: one per adjacent pair of
/// listed slots, so one less than each cycle's length.
pub open spec fn swap_count(cs: Seq<Seq<u32>>) -> int
    decreases cs.len(),
{
    if cs.len() == 0 {
        0
    } else {
        swap_count(cs.drop_last()) + cs.last().len() - 1
    }
}

proof fn lemma_swap_count_total(cs: Seq<Seq<u32>>)
    ensures
        swap_count(cs) == total_len(cs) - cs.len(),
    decreases cs.len(),
{
    if cs.len() > 0 {
        lemma_swap_count_total(cs.drop_last());
    }
}

/// All slots listed across the cycles, one after the other.
spec fn flat_of(cs: Seq<Seq<u32>>) -> Seq<u32>
    decreases cs.len(),
{
    if cs.len() == 0 {
        Seq::<u32>::empty()
    } else {
        flat_of(cs.drop_last()) + cs.last()
    }
}

proof fn lemma_flat_len(cs: Seq<Seq<u32>>)
    ensures
        flat_of(cs).len() == total_len(cs),
    decreases cs.len(),
{
    if cs.len() > 0 {
        lemma_flat_len(cs.drop_last());
    }
}

proof fn lemma_flat_contains(cs: Seq<Seq<u32>>)
    ensures
        forall|x: u32| #![trigger flat_of(cs).contains(x)]
            flat_of(cs).contains(x) <==> in_cycles(cs, x),
    decreases cs.len(),
{
    if cs.len() == 0 {
        assert forall|x: u32| !flat_of(cs).contains(x) && !in_cycles(cs, x) by {
            assert(flat_of(cs).len() == 0);
        }
    } else {
        let pre = cs.drop_last();
        lemma_flat_contains(pre);
        let f = flat_of(cs);
        let fp = flat_of(pre);
        assert forall|x: u32| #[trigger] f.contains(x) implies in_cycles(cs, x) by {
            let i = choose|i: int| 0 <= i < f.len() && f[i] == x;
            if i < fp.len() {
                assert(fp[i] == x);
                assert(fp.contains(x));
                assert(in_cycles(pre, x));
                let (k, j) = choose|k: int, j: int|
                    0 <= k < pre.len() && 0 <= j < pre[k].len() && pre[k][j] == x;
                assert(cs[k][j] == x);
            } else {
                assert(cs[cs.len() - 1][i - fp.len()] == x);
            }
        }
        assert forall|x: u32| in_cycles(cs, x) implies #[trigger] f.contains(x) by {
            let (k, j) = choose|k: int, j: int|
                0 <= k < cs.len() && 0 <= j < cs[k].len() && cs[k][j] == x;
            if k < cs.len() - 1 {
                assert(pre[k][j] == x);
                assert(in_cycles(pre, x));
                assert(fp.contains(x));
                let i = choose|i: int| 0 <= i < fp.len() && fp[i] == x;
                assert(f[i] == x);
            } else {
                assert(f[fp.len() + j] == x);
            }
        }
    }
}

proof fn lemma_flat_no_dup(cs: Seq<Seq<u32>>)
    requires
        cycles_disjoint(cs),
    ensures
        flat_of(cs).no_duplicates(),
    decreases cs.len(),
{
    if cs.len() > 0 {
        let pre = cs.drop_last();
        assert(cycles_disjoint(pre)) by {
            assert forall|k1: int, j1: int, k2: int, j2: int|
                0 <= k1 < pre.len() && 0 <= j1 < pre[k1].len() && 0 <= k2 < pre.len() && 0 <= j2
                    < pre[k2].len() && (k1 != k2 || j1 != j2) implies pre[k1][j1]
                != pre[k2][j2] by {
                assert(cs[k1][j1] != cs[k2][j2]);
            }
        }
        lemma_flat_no_dup(pre);
        lemma_flat_contains(pre);
        let f = flat_of(cs);
        let fp = flat_of(pre);
        let last = cs.last();
        assert forall|i1: int, i2: int|
            0 <= i1 < f.len() && 0 <= i2 < f.len() && i1 != i2 implies f[i1] != f[i2] by {
            if i1 < fp.len() && i2 < fp.len() {
                assert(fp[i1] != fp[i2]);
            } else if i1 >= fp.len() && i2 >= fp.len() {
                assert(cs[cs.len() - 1][i1 - fp.len()] != cs[cs.len() - 1][i2 - fp.len()]);
            } else if i1 < fp.len() {
                if f[i1] == f[i2] {
                    assert(fp.contains(fp[i1]));
                    assert(in_cycles(pre, fp[i1]));
                    let (k, j) = choose|k: int, j: int|
                        0 <= k < pre.len() && 0 <= j < pre[k].len() && pre[k][j] == fp[i1];
                    assert(cs[k][j] != cs[cs.len() - 1][i2 - fp.len()]);
                    assert(false);
                }
            } else {
                if f[i1] == f[i2] {
                    assert(fp.contains(fp[i2]));
                    assert(in_cycles(pre, fp[i2]));
                    let (k, j) = choose|k: int, j: int|
                        0 <= k < pre.len() && 0 <= j < pre[k].len() && pre[k][j] == fp[i2];
                    assert(cs[k][j] != cs[cs.len() - 1][i1 - fp.len()]);
                    assert(false);
                }
            }
        }
    }
}

proof fn lemma_decomposition_total_len(a: Seq<u32>, cs: Seq<Seq<u32>>)
    requires
        is_decomposition(a, cs),
        a.len() <= 0x1_0000_0000,
    ensures
        total_len(cs) == a.len(),
{
    let f = flat_of(cs);
    lemma_flat_len(cs);
    lemma_flat_no_dup(cs);
    lemma_flat_contains(cs);
    assert forall|i: int| 0 <= i < f.len() implies (f[i] as nat) < a.len() by {
        assert(f.contains(f[i]));
        assert(in_cycles(cs, f[i]));
        let (k, j) = choose|k: int, j: int|
            0 <= k < cs.len() && 0 <= j < cs[k].len() && cs[k][j] == f[i];
        assert(is_cycle_of(a, cs[k]));
        assert((cs[k][j] as int) < a.len());
    }
    assert forall|x: u32| (x as nat) < a.len() implies f.contains(x) by {
        assert(in_cycles(cs, x));
    }
    lemma_distinct_covering_len(f, a.len());
}

/// The replay of a decomposition issues exactly as many swaps as the number
/// of slots minus the number of cycles, singletons included: the fewest
/// pairwise swaps that can solve the permutation.
pub proof fn lemma_swap_count_minimal(a: Seq<u32>, cs: Seq<Seq<u32>>)
    requires
        is_perm(a),
        is_decomposition(a, cs),
    ensures
        swap_count(cs) == a.len() - cs.len(),
{
    lemma_distinct_len_le(a, 0x1_0000_0000);
    lemma_swap_count_total(cs);
    lemma_decomposition_total_len(a, cs);
}

/// The entries of `v`, in reverse order.
fn reversed(v: &Vec<u32>) -> (r: Vec<u32>)
    ensures
        r@ == v@.reverse(),
{
    let mut r: Vec<u32> = Vec::new();
    let mut i: usize = v.len();
    while i > 0
        invariant
            i <= v@.len(),
            r@.len() == v@.len() - i,
            forall|j: int| 0 <= j < r@.len() ==> r@[j] == v@[v@.len() - 1 - j],
        decreases i,
    {
        i = i - 1;
        r.push(v[i]);
    }
    proof {
        assert(r@ =~= v@.reverse());
    }
    r
}

/// Decompose the arrangement into its permutation cycles.
///
/// Every slot appears in exactly one returned cycle; tiles already home form
/// cycles of length one. Within each cycle the slots stand in replay order:
/// swapping each adjacent pair, left to right, sends those tiles home.
#[verifier::loop_isolation(false)]
pub fn solve(pieces: &Vec<u32>) -> (cycles: Vec<Vec<u32>>)
    requires
        is_perm(pieces@),
    ensures
        is_decomposition(pieces@, cycles.deep_view()),
{
    let n: usize = pieces.len();
    proof {
        lemma_distinct_len_le(pieces@, 0x1_0000_0000);
    }
    let mut processed: Vec<bool> = Vec::new();
    let mut i: usize = 0;
    while i < n
        invariant
            i <= n,
            processed@.len() == i as int,
            forall|x: int| 0 <= x < i as int ==> !processed@[x],
        decreases n - i,
    {
        processed.push(false);
        i = i + 1;
    }

    let mut cycles: Vec<Vec<u32>> = Vec::new();
    let mut p: usize = n;
    while p > 0
        invariant
            p <= n,
            processed@.len() == n as int,
            forall|k: int| 0 <= k < cycles.deep_view().len() ==> is_cycle_of(
                pieces@,
                cycles.deep_view()[k],
            ),
            cycles_disjoint(cycles.deep_view()),
            forall|x: int| #![trigger processed@[x]]
                0 <= x < n as int ==> (processed@[x] <==> in_cycles(
                    cycles.deep_view(),
                    x as u32,
                )),
            forall|x: int| p as int <= x < n as int ==> processed@[x],
        decreases p,
    {
        p = p - 1;
        if !processed[p] {
            let ghost cv0 = cycles.deep_view();
            let ghost processed0 = processed@;
            let first: u32 = pieces[p];
            proof {
                assert((first as int) < n as int);
                if processed0[first as int] {
                    lemma_cycles_closed(pieces@, cv0, p as u32);
                    assert(false);
                }
            }
            let mut circle: Vec<u32> = Vec::new();
            let mut cur: u32 = first;
            let mut done: bool = false;
            while !done
                invariant
                    processed@.len() == n as int,
                    forall|x: int| #![trigger processed@[x]]
                        0 <= x < n as int ==> (processed@[x] <==> (processed0[x]
                            || circle@.contains(x as u32))),
                    circle@.no_duplicates(),
                    forall|j: int| 0 <= j < circle@.len() ==> (circle@[j] as int) < n as int,
                    forall|j: int| 0 <= j < circle@.len() ==> !processed0[circle@[j] as int],
                    circle@.len() > 0 ==> circle@[0] == first,
                    forall|j: int| #![trigger circle@[j]]
                        1 <= j < circle@.len() ==> circle@[j] == pieces@[circle@[j - 1] as int],
                    !done ==> (cur as int) < n as int && !processed0[cur as int]
                        && !circle@.contains(cur),
                    !done && circle@.len() == 0 ==> cur == first,
                    !done && circle@.len() > 0 ==> cur == pieces@[circle@[circle@.len()
                        - 1] as int] && cur != first,
                    done ==> circle@.len() > 0 && pieces@[circle@[circle@.len() - 1] as int]
                        == first,
                    circle@.len() + (if done { 0int } else { 1int }) <= n as int,
                decreases n - circle@.len(),
            {
                let ghost old_circle = circle@;
                let here: u32 = cur;
                circle.push(cur);
                processed.set(cur as usize, true);
                cur = pieces[cur as usize];
                if cur == first {
                    done = true;
                }
                proof {
                    let c1 = circle@;
                    assert(c1 == old_circle.push(here));
                    assert(c1[c1.len() - 1] == here);
                    assert forall|j1: int, j2: int|
                        0 <= j1 < c1.len() && 0 <= j2 < c1.len() && j1 != j2 implies c1[j1]
                        != c1[j2] by {
                        if j1 < c1.len() - 1 && j2 < c1.len() - 1 {
                            assert(old_circle[j1] != old_circle[j2]);
                        } else if j1 == c1.len() - 1 {
                            assert(!old_circle.contains(c1[j1]));
                        } else {
                            assert(!old_circle.contains(c1[j2]));
                        }
                    }
                    assert(c1.no_duplicates());
                    assert forall|x: int| 0 <= x < n as int implies (processed@[x] <==> (
                    processed0[x] || c1.contains(x as u32))) by {
                        if x == here as int {
                            assert(c1[c1.len() - 1] == x as u32);
                            assert(c1.contains(x as u32));
                            assert(processed@[x]);
                        } else {
                            if c1.contains(x as u32) {
                                let j = choose|j: int| 0 <= j < c1.len() && c1[j] == x as u32;
                                assert(j < c1.len() - 1);
                                assert(old_circle.contains(x as u32));
                            }
                            if old_circle.contains(x as u32) {
                                let j = choose|j: int|
                                    0 <= j < old_circle.len() && old_circle[j] == x as u32;
                                assert(c1[j] == x as u32);
                                assert(c1.contains(x as u32));
                            }
                        }
                    }
                    if !done {
                        assert(cur == pieces@[here as int]);
                        assert(cur != first);
                        assert((cur as int) < n as int);
                        assert forall|j: int| 0 <= j < c1.len() implies c1[j] != cur by {
                            if j == 0 {
                                assert(c1[0] == first);
                            } else if c1[j] == cur {
                                assert(c1[j] == pieces@[c1[j - 1] as int]);
                                assert(pieces@[c1[j - 1] as int] == pieces@[c1[c1.len()
                                    - 1] as int]);
                                assert(c1[j - 1] as int == c1[c1.len() - 1] as int);
                                assert(j - 1 == c1.len() - 1);
                                assert(false);
                            }
                        }
                        assert(!c1.contains(cur));
                        if processed0[cur as int] {
                            assert(in_cycles(cv0, cur));
                            lemma_cycles_closed(pieces@, cv0, here);
                            assert(processed0[here as int]);
                            assert(false);
                        }
                        lemma_distinct_len_le(c1.push(cur), n as nat);
                        assert(c1.len() + 1 <= n as int);
                    } else {
                        lemma_distinct_len_le(c1, n as nat);
                    }
                }
            }
            proof {
                // The walked cycle returns to `first`, whose slot is `p`
                // itself: so `p` is the cycle's last listed slot.
                let c = circle@;
                let last: u32 = c[c.len() - 1];
                assert(pieces@[last as int] == pieces@[p as int]);
                assert(last as int == p as int);
                assert(c.contains(p as u32));
            }
            let rev: Vec<u32> = reversed(&circle);
            cycles.push(rev);
            proof {
                let c = circle@;
                let r = rev@;
                let cv1 = cycles.deep_view();
                assert(rev.deep_view() =~= r);
                assert(cv1 =~~= cv0.push(r));
                assert(r.len() == c.len());
                assert forall|j: int| 0 <= j < r.len() implies r[j] == c[c.len() - 1 - j] by {}
                // The reversed walk is a cycle of the arrangement.
                assert(is_cycle_of(pieces@, r)) by {
                    assert forall|j: int| 1 <= j < r.len() implies pieces@[r[j] as int] == r[j
                        - 1] by {
                        assert(r[j] == c[c.len() - 1 - j]);
                        assert(r[j - 1] == c[c.len() - j]);
                        assert(c[c.len() - j] == pieces@[c[c.len() - j - 1] as int]);
                    }
                    assert(r[0] == c[c.len() - 1]);
                    assert(pieces@[r[0] as int] == first);
                    assert(r[r.len() - 1] == c[0]);
                }
                // Membership in the reversed walk is membership in the walk.
                assert forall|x: u32| r.contains(x) implies c.contains(x) by {
                    let j = choose|j: int| 0 <= j < r.len() && r[j] == x;
                    assert(c[c.len() - 1 - j] == x);
                }
                assert forall|x: u32| c.contains(x) implies r.contains(x) by {
                    let j = choose|j: int| 0 <= j < c.len() && c[j] == x;
                    assert(r[c.len() - 1 - j] == x);
                }
                // The new list is still disjoint.
                assert forall|k1: int, j1: int, k2: int, j2: int|
                    0 <= k1 < cv1.len() && 0 <= j1 < cv1[k1].len() && 0 <= k2 < cv1.len() && 0
                        <= j2 < cv1[k2].len() && (k1 != k2 || j1 != j2) implies cv1[k1][j1]
                    != cv1[k2][j2] by {
                    if k1 == cv1.len() - 1 && k2 == cv1.len() - 1 {
                        assert(r.no_duplicates()) by {
                            assert forall|i1: int, i2: int|
                                0 <= i1 < r.len() && 0 <= i2 < r.len() && i1 != i2 implies r[i1]
                                != r[i2] by {
                                assert(r[i1] == c[c.len() - 1 - i1]);
                                assert(r[i2] == c[c.len() - 1 - i2]);
                            }
                        }
                    } else if k1 == cv1.len() - 1 {
                        if cv1[k1][j1] == cv1[k2][j2] {
                            assert(c.contains(r[j1]));
                            assert(!processed0[r[j1] as int]);
                            assert(in_cycles(cv0, cv0[k2][j2]));
                            assert(false);
                        }
                    } else if k2 == cv1.len() - 1 {
                        if cv1[k1][j1] == cv1[k2][j2] {
                            assert(c.contains(r[j2]));
                            assert(!processed0[r[j2] as int]);
                            assert(in_cycles(cv0, cv0[k1][j1]));
                            assert(false);
                        }
                    } else {
                        assert(cv0[k1][j1] != cv0[k2][j2]);
                    }
                }
                // Processed slots are exactly the slots listed in some cycle.
                assert forall|x: int| 0 <= x < n as int implies (processed@[x] <==> in_cycles(
                    cv1,
                    x as u32,
                )) by {
                    if processed@[x] {
                        if processed0[x] {
                            assert(in_cycles(cv0, x as u32));
                            let (k, j) = choose|k: int, j: int|
                                0 <= k < cv0.len() && 0 <= j < cv0[k].len() && cv0[k][j]
                                    == x as u32;
                            assert(cv1[k][j] == x as u32);
                        } else {
                            assert(c.contains(x as u32));
                            assert(r.contains(x as u32));
                            let j = choose|j: int| 0 <= j < r.len() && r[j] == x as u32;
                            assert(cv1[cv1.len() - 1][j] == x as u32);
                        }
                        assert(in_cycles(cv1, x as u32));
                    }
                    if in_cycles(cv1, x as u32) {
                        let (k, j) = choose|k: int, j: int|
                            0 <= k < cv1.len() && 0 <= j < cv1[k].len() && cv1[k][j] == x as u32;
                        if k < cv1.len() - 1 {
                            assert(cv0[k][j] == x as u32);
                            assert(in_cycles(cv0, x as u32));
                        } else {
                            assert(r[j] == x as u32);
                            assert(c.contains(x as u32));
                        }
                        assert(processed@[x]);
                    }
                }
                assert(processed@[p as int]) by {
                    assert(circle@.contains(p as u32));
                }
            }
        }
    }
    proof {
        assert forall|x: u32| (x as int) < pieces@.len() implies in_cycles(
            cycles.deep_view(),
            x,
        ) by {
            assert(processed@[x as int]);
        }
    }
    cycles
}

} // verus!
