//! Orderings of a word list: permutations of the positions `0..n`.
//!
//! A permutation is held as a vector `p` in which `p[position]` is the index
//! of the word asked at that position. For storage it is turned into a map
//! from position to index and back.

use crate::chance::shuffle;
use std::collections::HashMap;
use vstd::prelude::*;

verus! {

/// Whether `p` is a bijection over `[0, p.len())`: every entry lies below the
/// length and no entry occurs twice. (That every index occurs follows; see
/// [`lemma_permutation_is_onto`].)
pub open spec fn is_permutation(p: Seq<usize>) -> bool {
    &&& forall|i: int| 0 <= i < p.len() ==> #[trigger] p[i] < p.len()
    &&& forall|i: int, j: int| 0 <= i < j < p.len() ==> #[trigger] p[i] != #[trigger] p[j]
}

/// The ordering that leaves every word in its place.
pub open spec fn identity(n: nat) -> Seq<usize> {
    Seq::new(n, |i: int| i as usize)
}

/// The map from position to index that stands for `p` in storage.
pub open spec fn as_map(p: Seq<usize>) -> Map<usize, usize> {
    Map::new(|k: usize| k < p.len(), |k: usize| p[k as int])
}

/// The ordering of `n` words that a stored map stands for. A position that
/// the map leaves out keeps its own index.
pub open spec fn from_map(m: Map<usize, usize>, n: nat) -> Seq<usize> {
    Seq::new(
        n,
        |i: int|
            if m.contains_key(i as usize) {
                m[i as usize]
            } else {
                i as usize
            },
    )
}

/// The identity is a permutation.
pub proof fn lemma_identity_is_permutation(n: nat)
    requires
        n <= usize::MAX,
    ensures
        is_permutation(identity(n)),
{
}

/// Storing an ordering and reading it back gives the same ordering.
pub proof fn lemma_map_round_trip(p: Seq<usize>)
    requires
        p.len() <= usize::MAX,
    ensures
        from_map(as_map(p), p.len()) == p,
{
    assert(from_map(as_map(p), p.len()) =~= p);
}

/// A rearrangement of the identity is a permutation.
pub proof fn lemma_rearranged_identity_is_permutation(p: Seq<usize>, n: nat)
    requires
        n <= usize::MAX,
        p.to_multiset() == identity(n).to_multiset(),
    ensures
        p.len() == n,
        is_permutation(p),
{
    let id = identity(n);
    assert(p.len() == n) by {
        vstd::seq_lib::to_multiset_len(p);
        vstd::seq_lib::to_multiset_len(id);
    }
    assert forall|i: int| 0 <= i < p.len() implies #[trigger] p[i] < p.len() by {
        vstd::seq_lib::to_multiset_contains(p, p[i]);
        vstd::seq_lib::to_multiset_contains(id, p[i]);
        assert(p.contains(p[i]));
        let k = choose|k: int| 0 <= k < id.len() && id[k] == p[i];
        assert(id[k] == k as usize);
    }
    assert(id.no_duplicates());
    id.lemma_multiset_has_no_duplicates();
    p.lemma_multiset_has_no_duplicates_conv();
}

/// Every index occurs in a permutation: it is onto as well as one-to-one.
pub proof fn lemma_permutation_is_onto(p: Seq<usize>)
    requires
        is_permutation(p),
    ensures
        forall|v: usize| v < p.len() ==> #[trigger] p.contains(v),
    decreases p.len(),
{
    let n = p.len() as int;
    if n > 0 {
        if exists|k: int| 0 <= k < n && #[trigger] p[k] == n - 1 {
            let k = choose|k: int| 0 <= k < n && #[trigger] p[k] == n - 1;
            let rest = p.remove(k);
            assert forall|i: int| 0 <= i < rest.len() implies #[trigger] rest[i] < rest.len() by {
                let from = if i < k {
                    i
                } else {
                    i + 1
                };
                assert(rest[i] == p[from]);
                assert(p[from] != p[k]);
            }
            assert forall|i: int, j: int| 0 <= i < j < rest.len() implies #[trigger] rest[i]
                != #[trigger] rest[j] by {
                let a = if i < k {
                    i
                } else {
                    i + 1
                };
                let b = if j < k {
                    j
                } else {
                    j + 1
                };
                assert(rest[i] == p[a] && rest[j] == p[b]);
            }
            lemma_permutation_is_onto(rest);
            assert forall|v: usize| v < n implies #[trigger] p.contains(v) by {
                if v == n - 1 {
                    assert(p[k] == v);
                } else {
                    assert(rest.contains(v));
                    let i = choose|i: int| 0 <= i < rest.len() && rest[i] == v;
                    let from = if i < k {
                        i
                    } else {
                        i + 1
                    };
                    assert(p[from] == v);
                }
            }
        } else {
            // no entry is the largest index, so the first n - 1 entries are
            // a permutation already, and the last entry repeats one of them
            let front = p.drop_last();
            assert forall|i: int| 0 <= i < front.len() implies #[trigger] front[i] < front.len() by {
                assert(front[i] == p[i]);
                assert(p[i] < n);
            }
            assert forall|i: int, j: int| 0 <= i < j < front.len() implies #[trigger] front[i]
                != #[trigger] front[j] by {
                assert(front[i] == p[i] && front[j] == p[j]);
            }
            lemma_permutation_is_onto(front);
            let last = p[n - 1];
            assert(last < n);
            assert(last != n - 1);
            assert(front.contains(last));
            let i = choose|i: int| 0 <= i < front.len() && front[i] == last;
            assert(p[i] == p[n - 1]);
            assert(false);
        }
    }
}

/// The ordering that leaves every word in its place.
pub fn identity_permutation(n: usize) -> (r: Vec<usize>)
    ensures
        r@ == identity(n as nat),
{
    let mut out: Vec<usize> = Vec::new();
    let mut i: usize = 0;
    while i < n
        invariant
            i <= n,
            out@ == identity(i as nat),
        decreases n - i,
    {
        out.push(i);
        assert(out@ =~= identity((i + 1) as nat));
        i = i + 1;
    }
    out
}

/// A random ordering of `n` words: a bijection over `[0, n)`.
pub fn random_permutation(n: usize) -> (r: Vec<usize>)
    ensures
        r@.len() == n,
        is_permutation(r@),
        forall|v: usize| v < n ==> #[trigger] r@.contains(v),
{
    let mut order = identity_permutation(n);
    let mut rng = rand::thread_rng();
    shuffle(&mut order, &mut rng);
    proof {
        lemma_rearranged_identity_is_permutation(order@, n as nat);
        lemma_permutation_is_onto(order@);
    }
    order
}

/// Whether `p` is a permutation.
pub fn is_valid_permutation(p: &Vec<usize>) -> (r: bool)
    ensures
        r == is_permutation(p@),
{
    let n: usize = p.len();
    let mut seen: Vec<bool> = Vec::new();
    let mut k: usize = 0;
    while k < n
        invariant
            k <= n,
            seen@.len() == k,
            forall|v: int| 0 <= v < k ==> !#[trigger] seen@[v],
        decreases n - k,
    {
        seen.push(false);
        k = k + 1;
    }
    let mut i: usize = 0;
    while i < n
        invariant
            i <= n == p.len(),
            seen@.len() == n,
            forall|a: int| 0 <= a < i ==> #[trigger] p@[a] < n,
            forall|a: int, b: int| 0 <= a < b < i ==> #[trigger] p@[a] != #[trigger] p@[b],
            forall|v: int|
                0 <= v < n ==> (#[trigger] seen@[v] <==> exists|a: int|
                    0 <= a < i && #[trigger] p@[a] == v),
        decreases n - i,
    {
        let v: usize = p[i];
        if v >= n {
            return false;
        }
        if seen[v] {
            proof {
                let a = choose|a: int| 0 <= a < i && #[trigger] p@[a] == v;
                assert(p@[a] == p@[i as int]);
            }
            return false;
        }
        let ghost before = seen@;
        seen.set(v, true);
        proof {
            assert forall|w: int| 0 <= w < n implies (#[trigger] seen@[w] <==> exists|a: int|
                0 <= a < i + 1 && #[trigger] p@[a] == w) by {
                if w == v {
                    assert(p@[i as int] == w);
                } else {
                    assert(seen@[w] == before[w]);
                    if before[w] {
                        let a = choose|a: int| 0 <= a < i && #[trigger] p@[a] == w;
                        assert(0 <= a < i + 1 && p@[a] == w);
                    }
                    if exists|a: int| 0 <= a < i + 1 && #[trigger] p@[a] == w {
                        let a = choose|a: int| 0 <= a < i + 1 && #[trigger] p@[a] == w;
                        assert(a != i);
                        assert(0 <= a < i && p@[a] == w);
                    }
                }
            }
            assert forall|a: int, b: int| 0 <= a < b < i + 1 implies #[trigger] p@[a]
                != #[trigger] p@[b] by {
                if b == i && p@[a] == p@[b] {
                    assert(0 <= a < i && p@[a] == v);
                    assert(before[v as int]);
                }
            }
        }
        i = i + 1;
    }
    true
}

/// The map from position to index that stands for `p` in storage.
pub fn to_shuffle_map(p: &Vec<usize>) -> (m: HashMap<usize, usize>)
    ensures
        m@ == as_map(p@),
{
    let mut m: HashMap<usize, usize> = HashMap::new();
    let mut i: usize = 0;
    while i < p.len()
        invariant
            i <= p.len(),
            m@ =~= as_map(p@.take(i as int)),
        decreases p.len() - i,
    {
        m.insert(i, p[i]);
        assert(m@ =~= as_map(p@.take(i + 1)));
        i = i + 1;
    }
    assert(p@.take(p.len() as int) == p@);
    m
}

/// The ordering of `n` words that the stored map `m` stands for.
pub fn from_shuffle_map(m: &HashMap<usize, usize>, n: usize) -> (r: Vec<usize>)
    ensures
        r@ == from_map(m@, n as nat),
{
    let mut out: Vec<usize> = Vec::new();
    let mut i: usize = 0;
    while i < n
        invariant
            i <= n,
            out@ == from_map(m@, i as nat),
        decreases n - i,
    {
        let index: usize = match m.get(&i) {
            Some(v) => *v,
            None => i,
        };
        out.push(index);
        assert(out@ =~= from_map(m@, (i + 1) as nat));
        i = i + 1;
    }
    out
}

} // verus!
