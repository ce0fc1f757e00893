//! The mathematical model of an arrangement: a permutation of the tile
//! identities `0 .. n`, stored as the sequence of tiles indexed by slot.

use vstd::prelude::*;

verus! {

/// An arrangement is a permutation: every entry is a valid tile identity
/// for the arrangement's length, and no tile appears twice.
pub open spec fn is_perm(s: Seq<u32>) -> bool {
    &&& forall|i: int| 0 <= i < s.len() ==> (s[i] as int) < s.len()
    &&& s.no_duplicates()
}

/// The solved arrangement: slot `i` holds tile `i`.
pub open spec fn identity_seq(n: nat) -> Seq<u32> {
    Seq::new(n, |i: int| i as u32)
}

/// The arrangement after exchanging the tiles at slots `x` and `y`.
pub open spec fn apply_swap(a: Seq<u32>, x: u32, y: u32) -> Seq<u32> {
    a.update(x as int, a[y as int]).update(y as int, a[x as int])
}

pub proof fn lemma_identity_is_perm(n: nat)
    requires
        n <= u32::MAX,
    ensures
        is_perm(identity_seq(n)),
        identity_seq(n).len() == n,
{
}

pub proof fn lemma_swap_preserves_perm(a: Seq<u32>, x: u32, y: u32)
    requires
        is_perm(a),
        (x as int) < a.len(),
        (y as int) < a.len(),
    ensures
        is_perm(apply_swap(a, x, y)),
        apply_swap(a, x, y).len() == a.len(),
{
}

/// A sequence of distinct tile identities below `n` has at most `n` entries.
pub proof fn lemma_distinct_len_le(s: Seq<u32>, n: nat)
    requires
        s.no_duplicates(),
        forall|i: int| 0 <= i < s.len() ==> (s[i] as nat) < n,
    ensures
        s.len() <= n,
{
    let f = |v: u32| v as int;
    let t = s.map_values(f);
    assert(vstd::relations::injective(f));
    s.lemma_no_duplicates_injective(f);
    t.unique_seq_to_set();
    vstd::set_lib::lemma_int_range(0, n as int);
    assert forall|e: int| t.to_set().contains(e)
        implies vstd::set_lib::set_int_range(0, n as int).contains(e) by {
        let i = choose|i: int| 0 <= i < t.len() && t[i] == e;
        assert((s[i] as nat) < n);
    }
    vstd::set_lib::lemma_len_subset(t.to_set(), vstd::set_lib::set_int_range(0, n as int));
}

/// A sequence of distinct tile identities below `n` that contains every
/// identity below `n` has exactly `n` entries.
pub proof fn lemma_distinct_covering_len(s: Seq<u32>, n: nat)
    requires
        s.no_duplicates(),
        forall|i: int| 0 <= i < s.len() ==> (s[i] as nat) < n,
        forall|x: u32| (x as nat) < n ==> s.contains(x),
        n <= 0x1_0000_0000,
    ensures
        s.len() == n,
{
    lemma_distinct_len_le(s, n);
    let f = |v: u32| v as int;
    let t = s.map_values(f);
    assert(vstd::relations::injective(f));
    s.lemma_no_duplicates_injective(f);
    t.unique_seq_to_set();
    vstd::set_lib::lemma_int_range(0, n as int);
    assert forall|e: int| vstd::set_lib::set_int_range(0, n as int).contains(e)
        implies t.to_set().contains(e) by {
        let x = e as u32;
        assert((x as nat) < n);
        assert(s.contains(x));
        let i = choose|i: int| 0 <= i < s.len() && s[i] == x;
        assert(t[i] == e);
    }
    vstd::set_lib::lemma_len_subset(vstd::set_lib::set_int_range(0, n as int), t.to_set());
}

/// Rearranging an arrangement (keeping the same tiles, counted with
/// multiplicity) keeps it a permutation.
pub proof fn lemma_same_multiset_preserves_perm(a: Seq<u32>, b: Seq<u32>)
    requires
        is_perm(a),
        a.to_multiset() == b.to_multiset(),
    ensures
        is_perm(b),
        b.len() == a.len(),
{
    a.to_multiset_ensures();
    b.to_multiset_ensures();
    assert forall|i: int| 0 <= i < b.len() implies (b[i] as int) < b.len() by {
        assert(b.contains(b[i]));
        assert(b.to_multiset().count(b[i]) > 0);
        assert(a.contains(b[i]));
        let j = choose|j: int| 0 <= j < a.len() && a[j] == b[i];
    }
    a.lemma_multiset_has_no_duplicates();
    b.lemma_multiset_has_no_duplicates_conv();
}

/// The identity arrangement of length `n`, as a vector.
pub fn identity_vec(n: u32) -> (v: Vec<u32>)
    ensures
        v@ == identity_seq(n as nat),
{
    let mut v: Vec<u32> = Vec::new();
    let mut i: u32 = 0;
    while i < n
        invariant
            i <= n,
            v@.len() == i as int,
            forall|j: int| 0 <= j < i as int ==> v@[j] == j as u32,
        decreases n - i,
    {
        v.push(i);
        i = i + 1;
    }
    proof {
        assert(v@ =~= identity_seq(n as nat));
    }
    v
}

} // verus!
