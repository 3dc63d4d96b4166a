//! Stable in-place sorting of a vector by an integer key, as
//! `slice::sort_by_key` does it.
use vstd::prelude::*;

verus! {

/// A value that sorts by an unsigned integer key.
pub trait SortKey {
    spec fn sort_key(&self) -> usize;

    fn key(&self) -> (k: usize)
        ensures
            k == self.sort_key(),
    ;
}

/// `s` is in ascending order of keys.
pub open spec fn sorted_by_key<T: SortKey>(s: Seq<T>) -> bool {
    forall|a: int, b: int| 0 <= a < b < s.len() ==> s[a].sort_key() <= s[b].sort_key()
}

/// `p` is a permutation of the indices `0..n`.
pub open spec fn is_permutation(p: Seq<int>, n: int) -> bool {
    &&& p.len() == n
    &&& forall|k: int| 0 <= k < n ==> 0 <= #[trigger] p[k] < n
    &&& forall|a: int, b: int| 0 <= a < b < n ==> p[a] != p[b]
    &&& forall|j: int| 0 <= j < n ==> #[trigger] in_image(p, j)
}

/// Some index of `p` maps to `j`.
pub open spec fn in_image(p: Seq<int>, j: int) -> bool {
    exists|k: int| 0 <= k < p.len() && #[trigger] p[k] == j
}

/// `new` holds the elements of `old`, moved by the permutation `p`, and
/// elements with equal keys keep their relative order.
pub open spec fn stable_rearrangement<T: SortKey>(old: Seq<T>, new: Seq<T>, p: Seq<int>) -> bool {
    &&& new.len() == old.len()
    &&& is_permutation(p, old.len() as int)
    &&& forall|k: int| 0 <= k < new.len() ==> #[trigger] new[k] == old[p[k]]
    &&& forall|a: int, b: int|
        0 <= a < b < new.len() && new[a].sort_key() == new[b].sort_key() ==> p[a] < p[b]
}

/// `new` is the stable sort of `old` by key.
pub open spec fn stably_sorted<T: SortKey>(old: Seq<T>, new: Seq<T>) -> bool {
    &&& sorted_by_key(new)
    &&& exists|p: Seq<int>| stable_rearrangement(old, new, p)
}

/// Sorts `v` by key, keeping elements with equal keys in their order
/// (`slice::sort_by_key`).
pub fn sort_by_key<T: SortKey>(v: &mut Vec<T>)
    ensures
        stably_sorted(old(v)@, final(v)@),
{
    let ghost orig = v@;
    let n = v.len();
    let ghost mut p: Seq<int> = Seq::new(n as nat, |k: int| k);
    assert forall|jj: int| 0 <= jj < n implies #[trigger] in_image(p, jj) by {
        assert(p[jj] == jj);
    }
    let mut i: usize = 0;
    while i < n
        invariant
            orig == old(v)@,
            n == orig.len(),
            v@.len() == n,
            i <= n,
            p.len() == n,
            forall|k: int| 0 <= k < n ==> 0 <= #[trigger] p[k] < n,
            forall|a: int, b: int| 0 <= a < b < n ==> p[a] != p[b],
            forall|j: int| 0 <= j < n ==> #[trigger] in_image(p, j),
            forall|k: int| i <= k < n ==> #[trigger] p[k] == k,
            forall|k: int| 0 <= k < i ==> #[trigger] p[k] < i,
            forall|k: int| 0 <= k < n ==> #[trigger] v@[k] == orig[p[k]],
            forall|a: int, b: int|
                0 <= a < b < i ==> v@[a].sort_key() <= v@[b].sort_key(),
            forall|a: int, b: int|
                0 <= a < b < i && v@[a].sort_key() == v@[b].sort_key() ==> p[a] < p[b],
        decreases n - i,
    {
        let kx = v[i].key();
        let mut j: usize = 0;
        while j < i && v[j].key() <= kx
            invariant
                j <= i < n == v@.len(),
                kx == v@[i as int].sort_key(),
                forall|k: int| 0 <= k < j ==> #[trigger] v@[k].sort_key() <= kx,
            decreases i - j,
        {
            j = j + 1;
        }
        let ghost before = v@;
        let ghost pb = p;
        let x = v.remove(i);
        v.insert(j, x);
        proof {
            p = pb.subrange(0, j as int).push(i as int) + pb.subrange(j as int, i as int)
                + pb.subrange(i + 1, n as int);
            assert(v@ =~= before.subrange(0, j as int).push(before[i as int]) + before.subrange(
                j as int,
                i as int,
            ) + before.subrange(i + 1, n as int));
            assert forall|k: int| 0 <= k < n implies #[trigger] v@[k] == orig[p[k]] && 0 <= p[k]
                < n by {
                if k < j {
                    assert(v@[k] == before[k]);
                } else if k == j {
                } else if k <= i {
                    assert(v@[k] == before[k - 1]);
                    assert(p[k] == pb[k - 1]);
                } else {
                    assert(v@[k] == before[k]);
                    assert(p[k] == pb[k]);
                }
            }
            assert forall|a: int, b: int| 0 <= a < b < n implies p[a] != p[b] by {
                let oa = if a < j {
                    a
                } else if a == j {
                    i as int
                } else if a <= i {
                    a - 1
                } else {
                    a
                };
                let ob = if b < j {
                    b
                } else if b == j {
                    i as int
                } else if b <= i {
                    b - 1
                } else {
                    b
                };
                assert(p[a] == pb[oa]);
                assert(p[b] == pb[ob]);
                assert(oa != ob);
            }
            assert forall|jj: int| 0 <= jj < n implies #[trigger] in_image(p, jj) by {
                assert(in_image(pb, jj));
                let k0 = choose|k: int| 0 <= k < n && #[trigger] pb[k] == jj;
                let k1 = if k0 == i {
                    j as int
                } else if j <= k0 < i {
                    k0 + 1
                } else {
                    k0
                };
                assert(p[k1] == jj);
            }
            assert forall|k: int| 0 <= k < i + 1 implies #[trigger] p[k] < i + 1 by {
                if k < j {
                    assert(p[k] == pb[k]);
                } else if k > j {
                    assert(p[k] == pb[k - 1]);
                }
            }
            assert forall|k: int| i + 1 <= k < n implies #[trigger] p[k] == k by {
                assert(p[k] == pb[k]);
            }
            assert forall|a: int, b: int| 0 <= a < b < i + 1 implies v@[a].sort_key()
                <= v@[b].sort_key() && (v@[a].sort_key() == v@[b].sort_key() ==> p[a] < p[b]) by {
                let oa = if a < j {
                    a
                } else if a == j {
                    i as int
                } else {
                    a - 1
                };
                let ob = if b < j {
                    b
                } else if b == j {
                    i as int
                } else {
                    b - 1
                };
                assert(v@[a] == before[oa]);
                assert(v@[b] == before[ob]);
                assert(p[a] == pb[oa]);
                assert(p[b] == pb[ob]);
                if a < j && b > j {
                    assert(before[oa].sort_key() <= kx);
                }
                if a == j && b > j {
                    if j < i {
                        assert(!(before[j as int].sort_key() <= kx));
                        assert(before[j as int].sort_key() <= before[ob].sort_key() || ob
                            == j);
                    }
                }
            }
        }
        i = i + 1;
    }
    proof {
        assert(stable_rearrangement(orig, v@, p));
    }
}

/// Stably sorting a sequence that is already sorted leaves it unchanged.
pub proof fn lemma_stable_sort_of_sorted<T: SortKey>(s: Seq<T>, t: Seq<T>)
    requires
        sorted_by_key(s),
        stably_sorted(s, t),
    ensures
        t == s,
{
    let p = choose|p: Seq<int>| stable_rearrangement(s, t, p);
    lemma_identity_prefix(s, t, p, t.len() as int);
    assert(t =~= s);
}

proof fn lemma_identity_prefix<T: SortKey>(s: Seq<T>, t: Seq<T>, p: Seq<int>, k: int)
    requires
        sorted_by_key(s),
        sorted_by_key(t),
        stable_rearrangement(s, t, p),
        0 <= k <= t.len(),
    ensures
        forall|a: int| 0 <= a < k ==> #[trigger] p[a] == a,
    decreases k,
{
    if k > 0 {
        let c = k - 1;
        lemma_identity_prefix(s, t, p, c);
        let n = t.len() as int;
        assert(p[c] >= c) by {
            if p[c] < c {
                assert(p[p[c]] == p[c]);
            }
        }
        if p[c] > c {
            assert(in_image(p, c));
            let m = choose|m: int| 0 <= m < p.len() && #[trigger] p[m] == c;
            if m < c {
                assert(p[m] == m);
            }
            assert(m > c);
            assert(t[c] == s[p[c]]);
            assert(t[m] == s[c]);
            assert(s[c].sort_key() <= s[p[c]].sort_key());
            assert(t[c].sort_key() <= t[m].sort_key());
            assert(p[c] < p[m]);
        }
    }
}

/// Index `u` of `s` comes before index `v` in the order of a stable sort:
/// by key, and by position among equal keys.
pub open spec fn stable_before<T: SortKey>(s: Seq<T>, u: int, v: int) -> bool {
    s[u].sort_key() < s[v].sort_key() || (s[u].sort_key() == s[v].sort_key() && u < v)
}

proof fn lemma_stable_order<T: SortKey>(s: Seq<T>, t: Seq<T>, p: Seq<int>, a: int, b: int)
    requires
        sorted_by_key(t),
        stable_rearrangement(s, t, p),
        0 <= a < b < t.len(),
    ensures
        stable_before(s, p[a], p[b]),
{
    assert(t[a] == s[p[a]]);
    assert(t[b] == s[p[b]]);
}

/// Two stable sorts of sequences with the same keys at the same positions
/// move the elements the same way.
pub proof fn lemma_stable_sort_permutation_unique<T: SortKey>(
    s1: Seq<T>,
    t1: Seq<T>,
    p1: Seq<int>,
    s2: Seq<T>,
    t2: Seq<T>,
    p2: Seq<int>,
)
    requires
        sorted_by_key(t1),
        stable_rearrangement(s1, t1, p1),
        sorted_by_key(t2),
        stable_rearrangement(s2, t2, p2),
        s1.len() == s2.len(),
        forall|i: int| 0 <= i < s1.len() ==> #[trigger] s1[i].sort_key() == s2[i].sort_key(),
    ensures
        p1 == p2,
{
    lemma_same_prefix(s1, t1, p1, s2, t2, p2, s1.len() as int);
    assert(p1 =~= p2);
}

proof fn lemma_same_prefix<T: SortKey>(
    s1: Seq<T>,
    t1: Seq<T>,
    p1: Seq<int>,
    s2: Seq<T>,
    t2: Seq<T>,
    p2: Seq<int>,
    k: int,
)
    requires
        sorted_by_key(t1),
        stable_rearrangement(s1, t1, p1),
        sorted_by_key(t2),
        stable_rearrangement(s2, t2, p2),
        s1.len() == s2.len(),
        forall|i: int| 0 <= i < s1.len() ==> #[trigger] s1[i].sort_key() == s2[i].sort_key(),
        0 <= k <= s1.len(),
    ensures
        forall|a: int| 0 <= a < k ==> #[trigger] p1[a] == p2[a],
    decreases k,
{
    if k > 0 {
        let c = k - 1;
        lemma_same_prefix(s1, t1, p1, s2, t2, p2, c);
        let n = s1.len() as int;
        let x = p1[c];
        let y = p2[c];
        if x != y {
            assert(in_image(p1, y));
            let m = choose|m: int| 0 <= m < p1.len() && #[trigger] p1[m] == y;
            if m < c {
                assert(p2[m] == y);
            }
            assert(m > c);
            lemma_stable_order(s1, t1, p1, c, m);
            assert(in_image(p2, x));
            let m2 = choose|m: int| 0 <= m < p2.len() && #[trigger] p2[m] == x;
            if m2 < c {
                assert(p1[m2] == x);
            }
            assert(m2 > c);
            lemma_stable_order(s2, t2, p2, c, m2);
            assert(s1[x].sort_key() == s2[x].sort_key());
            assert(s1[y].sort_key() == s2[y].sort_key());
        }
    }
}

/// A sequence has only one stable sort.
pub proof fn lemma_stable_sort_unique<T: SortKey>(s: Seq<T>, t1: Seq<T>, t2: Seq<T>)
    requires
        stably_sorted(s, t1),
        stably_sorted(s, t2),
    ensures
        t1 == t2,
{
    let p1 = choose|p: Seq<int>| stable_rearrangement(s, t1, p);
    let p2 = choose|p: Seq<int>| stable_rearrangement(s, t2, p);
    lemma_stable_sort_permutation_unique(s, t1, p1, s, t2, p2);
    assert(t1 =~= t2);
}

} // verus!
