//! Ranked id lists: association vectors from item id to a rank value, a
//! deterministic order on them (higher rank first, ascending id among equal
//! ranks), a sort for that order, and strictly ascending id lists.

use crate::models::ProductId;
use vstd::prelude::*;

verus! {

/// A ranked entry: an item id with its rank value.
pub type Ranked = (ProductId, u128);

/// Whether `a` ranks at or before `b`: higher rank value first, ascending
/// id among equal values.
pub open spec fn rank_le(a: Ranked, b: Ranked) -> bool {
    a.1 > b.1 || (a.1 == b.1 && a.0 <= b.0)
}

/// The ids of the entries are pairwise distinct.
pub open spec fn ids_distinct(s: Seq<Ranked>) -> bool {
    forall|i: int, j: int| 0 <= i < j < s.len() ==> s[i].0 != s[j].0
}

/// Whether some entry of `s` carries id `x`.
pub open spec fn rank_has(s: Seq<Ranked>, x: ProductId) -> bool {
    exists|i: int| 0 <= i < s.len() && s[i].0 == x
}

/// The rank value recorded for id `x`: the first entry's, or 0 when `x` is
/// absent.
pub open spec fn rank_of(s: Seq<Ranked>, x: ProductId) -> u128
    decreases s.len(),
{
    if s.len() == 0 {
        0
    } else if s[0].0 == x {
        s[0].1
    } else {
        rank_of(s.drop_first(), x)
    }
}

/// With pairwise distinct ids, an entry `(x, w)` is present exactly when
/// its id is present and `w` is the rank recorded for `x`.
pub proof fn lemma_rank_entry(s: Seq<Ranked>, x: ProductId, w: u128)
    requires
        ids_distinct(s),
    ensures
        s.contains((x, w)) <==> (rank_has(s, x) && rank_of(s, x) == w),
    decreases s.len(),
{
    if s.len() > 0 {
        let rest = s.drop_first();
        assert(forall|i: int, j: int|
            0 <= i < j < rest.len() ==> rest[i].0 != rest[j].0) by {
            assert(forall|i: int| 0 <= i < rest.len() ==> rest[i] == s[i + 1]);
        }
        lemma_rank_entry(rest, x, w);
        if s.contains((x, w)) {
            let i = choose|i: int| 0 <= i < s.len() && s[i] == (x, w);
            if i > 0 {
                assert(rest[i - 1] == (x, w));
                assert(rest.contains((x, w)));
                assert(rank_has(rest, x));
                assert(s[0].0 != s[i].0);
            }
            assert(rank_has(s, x) && rank_of(s, x) == w);
        }
        if rank_has(s, x) && rank_of(s, x) == w {
            if s[0].0 == x {
                assert(s[0] == (x, w));
            } else {
                let i = choose|i: int| 0 <= i < s.len() && s[i].0 == x;
                assert(rest[i - 1].0 == x);
                assert(rank_has(rest, x));
                assert(rest.contains((x, w)));
                let j = choose|j: int| 0 <= j < rest.len() && rest[j] == (x, w);
                assert(s[j + 1] == (x, w));
            }
            assert(s.contains((x, w)));
        }
    }
}

/// An absent id has rank 0.
pub proof fn lemma_rank_absent(s: Seq<Ranked>, x: ProductId)
    requires
        !rank_has(s, x),
    ensures
        rank_of(s, x) == 0,
    decreases s.len(),
{
    if s.len() > 0 {
        assert(s[0].0 != x);
        let rest = s.drop_first();
        assert(forall|i: int| 0 <= i < rest.len() ==> rest[i] == s[i + 1]);
        assert(!rank_has(rest, x));
        lemma_rank_absent(rest, x);
    }
}

/// With distinct ids, the entry at position `i` records the rank of its id.
pub proof fn lemma_rank_at(s: Seq<Ranked>, i: int)
    requires
        ids_distinct(s),
        0 <= i < s.len(),
    ensures
        rank_of(s, s[i].0) == s[i].1,
        rank_has(s, s[i].0),
    decreases s.len(),
{
    if i > 0 {
        let rest = s.drop_first();
        assert(forall|a: int| 0 <= a < rest.len() ==> rest[a] == s[a + 1]);
        assert(ids_distinct(rest));
        lemma_rank_at(rest, i - 1);
        assert(s[0].0 != s[i].0);
    }
}

/// Replacing the entry at `i` with one carrying the same id changes only
/// that id's rank.
pub proof fn lemma_rank_update(s: Seq<Ranked>, i: int, e: Ranked)
    requires
        ids_distinct(s),
        0 <= i < s.len(),
        e.0 == s[i].0,
    ensures
        ids_distinct(s.update(i, e)),
        forall|x: ProductId| #[trigger] rank_has(s.update(i, e), x) <==> rank_has(s, x),
        forall|x: ProductId| #[trigger] rank_of(s.update(i, e), x) == (if x == e.0 {
            e.1
        } else {
            rank_of(s, x)
        }),
    decreases s.len(),
{
    let t = s.update(i, e);
    assert(forall|j: int| 0 <= j < t.len() ==> #[trigger] t[j].0 == s[j].0);
    assert forall|x: ProductId| #[trigger] rank_has(t, x) <==> rank_has(s, x) by {
        if rank_has(t, x) {
            let j = choose|j: int| 0 <= j < t.len() && t[j].0 == x;
            assert(s[j].0 == x);
        }
        if rank_has(s, x) {
            let j = choose|j: int| 0 <= j < s.len() && s[j].0 == x;
            assert(t[j].0 == x);
        }
    }
    if i == 0 {
        assert(t.drop_first() =~= s.drop_first());
        assert forall|x: ProductId| #[trigger] rank_of(t, x) == (if x == e.0 {
            e.1
        } else {
            rank_of(s, x)
        }) by {
            if x == e.0 {
                assert(t[0].0 == x);
            } else {
                assert(t[0].0 != x);
                assert(s[0].0 != x);
            }
        }
    } else {
        let rest = s.drop_first();
        assert(forall|a: int| 0 <= a < rest.len() ==> rest[a] == s[a + 1]);
        assert(ids_distinct(rest));
        lemma_rank_update(rest, i - 1, e);
        assert(t.drop_first() =~= rest.update(i - 1, e));
        assert forall|x: ProductId| #[trigger] rank_of(t, x) == (if x == e.0 {
            e.1
        } else {
            rank_of(s, x)
        }) by {
            assert(t[0] == s[0]);
            assert(s[0].0 != s[i].0);
            if s[0].0 == x {
            } else {
                assert(rank_of(t, x) == rank_of(rest.update(i - 1, e), x));
                assert(rank_of(s, x) == rank_of(rest, x));
            }
        }
    }
}

/// Appending an entry with a fresh id records that id at its rank and
/// changes nothing else.
pub proof fn lemma_rank_push(s: Seq<Ranked>, e: Ranked)
    requires
        ids_distinct(s),
        !rank_has(s, e.0),
    ensures
        ids_distinct(s.push(e)),
        forall|x: ProductId| #[trigger] rank_has(s.push(e), x) <==> (rank_has(s, x) || x == e.0),
        forall|x: ProductId| #[trigger] rank_of(s.push(e), x) == (if x == e.0 {
            e.1
        } else {
            rank_of(s, x)
        }),
    decreases s.len(),
{
    let t = s.push(e);
    assert forall|x: ProductId| #[trigger] rank_has(t, x) <==> (rank_has(s, x) || x == e.0) by {
        if rank_has(t, x) {
            let j = choose|j: int| 0 <= j < t.len() && t[j].0 == x;
            if j < s.len() {
                assert(s[j].0 == x);
            }
        }
        if rank_has(s, x) {
            let j = choose|j: int| 0 <= j < s.len() && s[j].0 == x;
            assert(t[j].0 == x);
        }
        if x == e.0 {
            assert(t[s.len() as int].0 == x);
        }
    }
    assert forall|i: int, j: int| 0 <= i < j < t.len() implies t[i].0 != t[j].0 by {
        if j == s.len() {
            assert(t[i].0 == s[i].0);
            assert(!rank_has(s, e.0));
        }
    }
    if s.len() == 0 {
        assert forall|x: ProductId| #[trigger] rank_of(t, x) == (if x == e.0 {
            e.1
        } else {
            rank_of(s, x)
        }) by {
            assert(t[0] == e);
            if x != e.0 {
                assert(t.drop_first() =~= Seq::<Ranked>::empty());
                assert(rank_of(t.drop_first(), x) == 0);
            }
        }
    } else {
        let rest = s.drop_first();
        assert(forall|a: int| 0 <= a < rest.len() ==> rest[a] == s[a + 1]);
        assert(ids_distinct(rest));
        assert(!rank_has(rest, e.0)) by {
            if rank_has(rest, e.0) {
                let j = choose|j: int| 0 <= j < rest.len() && rest[j].0 == e.0;
                assert(s[j + 1].0 == e.0);
            }
        }
        lemma_rank_push(rest, e);
        assert(t.drop_first() =~= rest.push(e));
        assert forall|x: ProductId| #[trigger] rank_of(t, x) == (if x == e.0 {
            e.1
        } else {
            rank_of(s, x)
        }) by {
            assert(t[0] == s[0]);
            if s[0].0 == x {
            } else {
                assert(rank_of(t, x) == rank_of(rest.push(e), x));
                assert(rank_of(s, x) == rank_of(rest, x));
            }
        }
    }
}

/// Two rank vectors with distinct ids and the same entries record the same
/// ranks.
pub proof fn lemma_rank_same_entries(s: Seq<Ranked>, t: Seq<Ranked>)
    requires
        ids_distinct(s),
        ids_distinct(t),
        forall|p: Ranked| #[trigger] s.contains(p) <==> t.contains(p),
    ensures
        forall|x: ProductId| #[trigger] rank_has(s, x) <==> rank_has(t, x),
        forall|x: ProductId| #[trigger] rank_of(s, x) == rank_of(t, x),
{
    assert forall|x: ProductId| #[trigger] rank_has(s, x) <==> rank_has(t, x) by {
        if rank_has(s, x) {
            let i = choose|i: int| 0 <= i < s.len() && s[i].0 == x;
            assert(s.contains(s[i]));
            assert(t.contains(s[i]));
            let j = choose|j: int| 0 <= j < t.len() && t[j] == s[i];
            assert(t[j].0 == x);
        }
        if rank_has(t, x) {
            let i = choose|i: int| 0 <= i < t.len() && t[i].0 == x;
            assert(t.contains(t[i]));
            assert(s.contains(t[i]));
            let j = choose|j: int| 0 <= j < s.len() && s[j] == t[i];
            assert(s[j].0 == x);
        }
    }
    assert forall|x: ProductId| #[trigger] rank_of(s, x) == rank_of(t, x) by {
        if rank_has(s, x) {
            lemma_rank_entry(s, x, rank_of(s, x));
            lemma_rank_entry(t, x, rank_of(s, x));
        } else {
            lemma_rank_absent(s, x);
            lemma_rank_absent(t, x);
        }
    }
}

/// Extending a prefix by one element extends its membership by exactly that
/// element.
pub proof fn lemma_take_step<A>(s: Seq<A>, k: int)
    requires
        0 <= k < s.len(),
    ensures
        forall|y: A| #[trigger] s.take(k + 1).contains(y) <==> (s.take(k).contains(y) || y == s[k]),
{
    assert forall|y: A| #[trigger] s.take(k + 1).contains(y) <==> (s.take(k).contains(y) || y
        == s[k]) by {
        if s.take(k + 1).contains(y) {
            let m = choose|m: int| 0 <= m < s.take(k + 1).len() && #[trigger] s.take(k + 1)[m] == y;
            if m < k {
                assert(s.take(k)[m] == y);
            }
        }
        if s.take(k).contains(y) {
            let m = choose|m: int| 0 <= m < s.take(k).len() && #[trigger] s.take(k)[m] == y;
            assert(s.take(k + 1)[m] == y);
        }
        if y == s[k] {
            assert(s.take(k + 1)[k] == y);
        }
    }
}

/// The position of id `x` among the entries, when present.
pub fn rank_find(v: &Vec<Ranked>, x: ProductId) -> (r: Option<usize>)
    ensures
        match r {
            Some(i) => i < v@.len() && v@[i as int].0 == x,
            None => !rank_has(v@, x),
        },
{
    let mut i: usize = 0;
    while i < v.len()
        invariant
            i <= v@.len(),
            forall|j: int| 0 <= j < i ==> v@[j].0 != x,
        decreases v@.len() - i,
    {
        let p = v[i];
        if p.0 == x {
            return Some(i);
        }
        i = i + 1;
    }
    None
}

/// Replace the entry at position `i` of `v` with `x`.
pub fn vec_set<T>(v: &mut Vec<T>, i: usize, x: T)
    requires
        i < old(v)@.len(),
    ensures
        final(v)@ == old(v)@.update(i as int, x),
{
    let _replaced = v.remove(i);
    v.insert(i, x);
    proof {
        assert(v@ =~= old(v)@.update(i as int, x));
    }
}

proof fn lemma_swap_preserves(s: Seq<Ranked>, a: int, b: int)
    requires
        0 <= a < s.len(),
        0 <= b < s.len(),
    ensures
        forall|p: Ranked| #[trigger] s.update(a, s[b]).update(b, s[a]).contains(p) <==> s.contains(p),
        ids_distinct(s) ==> ids_distinct(s.update(a, s[b]).update(b, s[a])),
{
    let t = s.update(a, s[b]).update(b, s[a]);
    assert(forall|i: int|
        0 <= i < t.len() ==> t[i] == (if i == b {
            s[a]
        } else if i == a {
            s[b]
        } else {
            s[i]
        }));
    assert forall|p: Ranked| #[trigger] t.contains(p) <==> s.contains(p) by {
        if t.contains(p) {
            let i = choose|i: int| 0 <= i < t.len() && t[i] == p;
            if i == b {
                assert(s[a] == p);
            } else if i == a {
                assert(s[b] == p);
            } else {
                assert(s[i] == p);
            }
            assert(s.contains(p));
        }
        if s.contains(p) {
            let i = choose|i: int| 0 <= i < s.len() && s[i] == p;
            if i == a {
                assert(t[b] == p);
            } else if i == b {
                assert(t[a] == p);
            } else {
                assert(t[i] == p);
            }
            assert(t.contains(p));
        }
    }
}

/// Sort ranked entries in place: highest rank value first, ascending id
/// among equal values. Keeps exactly the entries it was given.
pub fn sort_ranked(v: &mut Vec<Ranked>)
    requires
        ids_distinct(old(v)@),
    ensures
        final(v)@.len() == old(v)@.len(),
        ids_distinct(final(v)@),
        forall|p: Ranked| #[trigger] final(v)@.contains(p) <==> old(v)@.contains(p),
        forall|i: int, j: int| 0 <= i < j < final(v)@.len() ==> rank_le(final(v)@[i], final(v)@[j]),
{
    let n = v.len();
    if n == 0 {
        return ;
    }
    let mut i: usize = 1;
    while i < n
        invariant
            1 <= i <= n,
            n == v@.len(),
            old(v)@.len() == n,
            ids_distinct(v@),
            forall|p: Ranked| #[trigger] v@.contains(p) <==> old(v)@.contains(p),
            forall|a: int, b: int| 0 <= a < b < i ==> rank_le(v@[a], v@[b]),
        decreases n - i,
    {
        let mut j = i;
        let mut moving = true;
        while moving && j > 0
            invariant
                0 <= j <= i < n,
                n == v@.len(),
                old(v)@.len() == n,
                ids_distinct(v@),
                forall|p: Ranked| #[trigger] v@.contains(p) <==> old(v)@.contains(p),
                forall|a: int, b: int| 0 <= a < b <= i && a != j && b != j ==> rank_le(
                    v@[a],
                    v@[b],
                ),
                forall|b: int| j < b <= i ==> rank_le(v@[j as int], v@[b]),
                !moving && j > 0 ==> rank_le(v@[j - 1], v@[j as int]),
            decreases j, (if moving { 1int } else { 0int }),
        {
            let prev = v[j - 1];
            let here = v[j];
            if here.1 > prev.1 || (here.1 == prev.1 && here.0 < prev.0) {
                let ghost pre = v@;
                vec_set(v, j - 1, here);
                vec_set(v, j, prev);
                proof {
                    lemma_swap_preserves(pre, j - 1, j as int);
                    assert(v@ =~= pre.update(j - 1, pre[j as int]).update(j as int, pre[j - 1]));
                }
                j = j - 1;
            } else {
                moving = false;
            }
        }
        proof {
            assert forall|a: int, b: int| 0 <= a < b <= i implies rank_le(v@[a], v@[b]) by {
                if b == j as int {
                    assert(j > 0);
                    assert(rank_le(v@[j - 1], v@[j as int]));
                    if a < j - 1 {
                        assert(rank_le(v@[a], v@[j - 1]));
                    }
                }
            }
        }
        i = i + 1;
    }
}

/// The ids of the entries, in order.
pub fn ranked_ids(v: &Vec<Ranked>) -> (r: Vec<ProductId>)
    ensures
        r@.len() == v@.len(),
        forall|i: int| 0 <= i < v@.len() ==> r@[i] == v@[i].0,
{
    let mut r: Vec<ProductId> = Vec::new();
    let mut i: usize = 0;
    while i < v.len()
        invariant
            i <= v@.len(),
            r@.len() == i as int,
            forall|j: int| 0 <= j < i ==> r@[j] == v@[j].0,
        decreases v@.len() - i,
    {
        let p = v[i];
        r.push(p.0);
        i = i + 1;
    }
    r
}

/// A strictly ascending list with exactly the ids of `v`: sorted ascending,
/// duplicates dropped.
pub fn sorted_unique_ids(v: &Vec<ProductId>) -> (r: Vec<ProductId>)
    ensures
        forall|x: ProductId| #[trigger] r@.contains(x) <==> v@.contains(x),
        forall|i: int, j: int| 0 <= i < j < r@.len() ==> r@[i] < r@[j],
{
    let mut r: Vec<ProductId> = Vec::new();
    let mut i: usize = 0;
    while i < v.len()
        invariant
            i <= v@.len(),
            forall|x: ProductId| #[trigger] r@.contains(x) <==> v@.take(i as int).contains(x),
            forall|a: int, b: int| 0 <= a < b < r@.len() ==> r@[a] < r@[b],
        decreases v@.len() - i,
    {
        let x = v[i];
        let mut k: usize = 0;
        while k < r.len() && r[k] < x
            invariant
                k <= r@.len(),
                forall|m: int| 0 <= m < k ==> r@[m] < x,
                forall|a: int, b: int| 0 <= a < b < r@.len() ==> r@[a] < r@[b],
            decreases r@.len() - k,
        {
            k = k + 1;
        }
        let ghost pre = r@;
        if k == r.len() || r[k] > x {
            r.insert(k, x);
            proof {
                pre.insert_ensures(k as int, x);
                assert forall|y: ProductId| #[trigger] r@.contains(y) <==> (pre.contains(y) || y
                    == x) by {
                    if r@.contains(y) {
                        let m = choose|m: int| 0 <= m < r@.len() && r@[m] == y;
                        if m < k {
                            assert(pre[m] == y);
                            assert(pre.contains(y));
                        } else if m > k {
                            assert(pre[m - 1] == y);
                            assert(pre.contains(y));
                        }
                    }
                    if pre.contains(y) {
                        let m = choose|m: int| 0 <= m < pre.len() && pre[m] == y;
                        if m < k {
                            assert(r@[m] == y);
                        } else {
                            assert(r@[m + 1] == y);
                        }
                        assert(r@.contains(y));
                    }
                    if y == x {
                        assert(r@[k as int] == x);
                        assert(r@.contains(y));
                    }
                }
            }
        } else {
            proof {
                assert(r@[k as int] == x);
                assert(r@.contains(x));
            }
        }
        proof {
            assert(v@.take(i + 1).drop_last() =~= v@.take(i as int));
            assert(v@.take(i + 1).last() == v@[i as int]);
            assert forall|y: ProductId| #[trigger] v@.take(i + 1).contains(y) <==> (v@.take(
                i as int,
            ).contains(y) || y == x) by {
                if v@.take(i + 1).contains(y) {
                    let m = choose|m: int|
                        0 <= m < v@.take(i + 1).len() && #[trigger] v@.take(i + 1)[m] == y;
                    if m < i {
                        assert(v@.take(i as int)[m] == y);
                    }
                }
                if v@.take(i as int).contains(y) {
                    let m = choose|m: int|
                        0 <= m < v@.take(i as int).len() && v@.take(i as int)[m] == y;
                    assert(v@.take(i + 1)[m] == y);
                }
                if y == x {
                    assert(v@.take(i + 1)[i as int] == x);
                }
            }
        }
        i = i + 1;
    }
    proof {
        assert(v@.take(v@.len() as int) =~= v@);
    }
    r
}

} // verus!
