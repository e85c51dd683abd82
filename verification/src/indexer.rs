//! The inverted index: three namespaces (name tokens, category token, tag
//! tokens), each mapping a token to the list of item ids that carry it.
//! Lists are append-only while the index is being built; `finalize` seals
//! the index, leaving every list sorted ascending with no duplicates.

use crate::models::{Product, ProductId, ProductView};
use crate::normalizer::{norm_of, norm_tags, normalize_token, spec_tokenize, tokenize};
use crate::ranking::{sorted_unique_ids, vec_set};
use vstd::prelude::*;

verus! {

/// One namespace: an association vector from token to id list, with
/// pairwise distinct keys.
pub type Namespace = Vec<(String, Vec<ProductId>)>;

/// The id list a namespace records for token `t`: the first matching
/// entry's, or empty when `t` is absent.
pub open spec fn ns_lookup(ns: Seq<(String, Vec<ProductId>)>, t: Seq<char>) -> Seq<ProductId>
    decreases ns.len(),
{
    if ns.len() == 0 {
        Seq::empty()
    } else if ns[0].0@ == t {
        ns[0].1@
    } else {
        ns_lookup(ns.drop_first(), t)
    }
}

/// Whether some entry of the namespace has key `t`.
pub open spec fn ns_has(ns: Seq<(String, Vec<ProductId>)>, t: Seq<char>) -> bool {
    exists|i: int| 0 <= i < ns.len() && ns[i].0@ == t
}

/// The keys of the namespace are pairwise distinct.
pub open spec fn ns_keys_distinct(ns: Seq<(String, Vec<ProductId>)>) -> bool {
    forall|i: int, j: int| 0 <= i < j < ns.len() ==> ns[i].0@ != ns[j].0@
}

/// A strictly ascending id list: sorted, no duplicates.
pub open spec fn strictly_ascending(s: Seq<ProductId>) -> bool {
    forall|i: int, j: int| 0 <= i < j < s.len() ==> s[i] < s[j]
}

/// The item contributes token `t` in the name namespace.
pub open spec fn name_matches(p: ProductView, t: Seq<char>) -> bool {
    spec_tokenize(p.name).contains(t)
}

/// The item contributes token `t` in the category namespace: the category,
/// normalized as one atomic token.
pub open spec fn category_matches(p: ProductView, t: Seq<char>) -> bool {
    t == norm_of(p.category)
}

/// The item contributes token `t` in the tag namespace.
pub open spec fn tag_matches(p: ProductView, t: Seq<char>) -> bool {
    exists|j: int| 0 <= j < p.tags.len() && t == norm_of(#[trigger] p.tags[j])
}

/// The number of occurrences of token `t` in `toks`.
pub open spec fn count_occ(toks: Seq<Seq<char>>, t: Seq<char>) -> nat
    decreases toks.len(),
{
    if toks.len() == 0 {
        0
    } else {
        count_occ(toks.drop_last(), t) + (if toks.last() == t {
            1nat
        } else {
            0nat
        })
    }
}

/// `n` copies of `id`.
pub open spec fn repeat_id(id: ProductId, n: nat) -> Seq<ProductId> {
    Seq::new(n, |i: int| id)
}

proof fn lemma_concat_contains(a: Seq<ProductId>, b: Seq<ProductId>, x: ProductId)
    ensures
        (a + b).contains(x) <==> (a.contains(x) || b.contains(x)),
{
    if (a + b).contains(x) {
        let m = choose|m: int| 0 <= m < (a + b).len() && (a + b)[m] == x;
        if m < a.len() {
            assert(a[m] == x);
        } else {
            assert(b[m - a.len()] == x);
        }
    }
    if a.contains(x) {
        let m = choose|m: int| 0 <= m < a.len() && a[m] == x;
        assert((a + b)[m] == x);
    }
    if b.contains(x) {
        let m = choose|m: int| 0 <= m < b.len() && b[m] == x;
        assert((a + b)[m + a.len()] == x);
    }
}

proof fn lemma_count_occ_positive(toks: Seq<Seq<char>>, t: Seq<char>)
    ensures
        count_occ(toks, t) > 0 <==> toks.contains(t),
    decreases toks.len(),
{
    if toks.len() > 0 {
        lemma_count_occ_positive(toks.drop_last(), t);
        if toks.contains(t) {
            let m = choose|m: int| 0 <= m < toks.len() && toks[m] == t;
            if m < toks.len() - 1 {
                assert(toks.drop_last()[m] == t);
                assert(toks.drop_last().contains(t));
            }
        }
        if toks.drop_last().contains(t) {
            let m = choose|m: int| 0 <= m < toks.drop_last().len() && toks.drop_last()[m] == t;
            assert(toks[m] == t);
        }
        if toks.last() == t {
            assert(toks[toks.len() - 1] == t);
        }
    }
}

proof fn lemma_count_occ_step(toks: Seq<Seq<char>>, k: int, t: Seq<char>)
    requires
        0 <= k < toks.len(),
    ensures
        count_occ(toks.take(k + 1), t) == count_occ(toks.take(k), t) + (if toks[k] == t {
            1nat
        } else {
            0nat
        }),
{
    assert(toks.take(k + 1).drop_last() =~= toks.take(k));
    assert(toks.take(k + 1).last() == toks[k]);
}

proof fn lemma_push_contains(s: Seq<ProductId>, v: ProductId, y: ProductId)
    ensures
        s.push(v).contains(y) <==> (s.contains(y) || y == v),
{
    if s.push(v).contains(y) {
        let m = choose|m: int| 0 <= m < s.push(v).len() && s.push(v)[m] == y;
        if m < s.len() {
            assert(s[m] == y);
        }
    }
    if s.contains(y) {
        let m = choose|m: int| 0 <= m < s.len() && s[m] == y;
        assert(s.push(v)[m] == y);
    }
    assert(s.push(v)[s.len() as int] == v);
}

proof fn lemma_ns_lookup_absent(ns: Seq<(String, Vec<ProductId>)>, t: Seq<char>)
    requires
        !ns_has(ns, t),
    ensures
        ns_lookup(ns, t) == Seq::<ProductId>::empty(),
    decreases ns.len(),
{
    if ns.len() > 0 {
        assert(ns[0].0@ != t);
        let rest = ns.drop_first();
        assert(forall|i: int| 0 <= i < rest.len() ==> rest[i] == ns[i + 1]);
        assert(!ns_has(rest, t));
        lemma_ns_lookup_absent(rest, t);
    }
}

proof fn lemma_ns_lookup_at(ns: Seq<(String, Vec<ProductId>)>, i: int)
    requires
        ns_keys_distinct(ns),
        0 <= i < ns.len(),
    ensures
        ns_lookup(ns, ns[i].0@) == ns[i].1@,
    decreases ns.len(),
{
    if i == 0 {
    } else {
        let rest = ns.drop_first();
        assert(forall|a: int| 0 <= a < rest.len() ==> rest[a] == ns[a + 1]);
        assert(ns_keys_distinct(rest));
        lemma_ns_lookup_at(rest, i - 1);
        assert(ns[0].0@ != ns[i].0@);
    }
}

proof fn lemma_ns_lookup_update(ns: Seq<(String, Vec<ProductId>)>, i: int, e: (String, Vec<ProductId>))
    requires
        ns_keys_distinct(ns),
        0 <= i < ns.len(),
        e.0@ == ns[i].0@,
    ensures
        ns_keys_distinct(ns.update(i, e)),
        forall|u: Seq<char>| #[trigger] ns_has(ns.update(i, e), u) <==> ns_has(ns, u),
        forall|u: Seq<char>| #[trigger] ns_lookup(ns.update(i, e), u) == (if u == e.0@ {
            e.1@
        } else {
            ns_lookup(ns, u)
        }),
    decreases ns.len(),
{
    let t = ns.update(i, e);
    assert(forall|j: int|
        0 <= j < t.len() ==> #[trigger] t[j].0@ == ns[j].0@);
    assert forall|u: Seq<char>| #[trigger] ns_has(t, u) <==> ns_has(ns, u) by {
        if ns_has(t, u) {
            let j = choose|j: int| 0 <= j < t.len() && t[j].0@ == u;
            assert(ns[j].0@ == u);
        }
        if ns_has(ns, u) {
            let j = choose|j: int| 0 <= j < ns.len() && ns[j].0@ == u;
            assert(t[j].0@ == u);
        }
    }
    if i == 0 {
        assert(t.drop_first() =~= ns.drop_first());
        assert forall|u: Seq<char>| #[trigger] ns_lookup(t, u) == (if u == e.0@ {
            e.1@
        } else {
            ns_lookup(ns, u)
        }) by {
            if u == e.0@ {
                assert(t[0].0@ == u);
            } else {
                assert(t[0].0@ != u);
                assert(ns[0].0@ != u);
            }
        }
    } else {
        let rest = ns.drop_first();
        assert(forall|a: int| 0 <= a < rest.len() ==> rest[a] == ns[a + 1]);
        assert(ns_keys_distinct(rest));
        lemma_ns_lookup_update(rest, i - 1, e);
        assert(t.drop_first() =~= rest.update(i - 1, e));
        assert forall|u: Seq<char>| #[trigger] ns_lookup(t, u) == (if u == e.0@ {
            e.1@
        } else {
            ns_lookup(ns, u)
        }) by {
            assert(t[0] == ns[0]);
            assert(ns[0].0@ != ns[i].0@);
            if ns[0].0@ == u {
                assert(u != e.0@);
                assert(ns_lookup(t, u) == t[0].1@);
            } else {
                assert(ns_lookup(t, u) == ns_lookup(rest.update(i - 1, e), u));
                assert(ns_lookup(ns, u) == ns_lookup(rest, u));
            }
        }
    }
}

proof fn lemma_ns_lookup_push(ns: Seq<(String, Vec<ProductId>)>, e: (String, Vec<ProductId>))
    ensures
        forall|u: Seq<char>| #[trigger] ns_has(ns.push(e), u) <==> (ns_has(ns, u) || e.0@ == u),
        forall|u: Seq<char>| #[trigger] ns_lookup(ns.push(e), u) == (if ns_has(ns, u) {
            ns_lookup(ns, u)
        } else if e.0@ == u {
            e.1@
        } else {
            Seq::<ProductId>::empty()
        }),
        ns_keys_distinct(ns) && !ns_has(ns, e.0@) ==> ns_keys_distinct(ns.push(e)),
    decreases ns.len(),
{
    let t = ns.push(e);
    assert forall|u: Seq<char>| #[trigger] ns_has(t, u) <==> (ns_has(ns, u) || e.0@ == u) by {
        if ns_has(t, u) {
            let j = choose|j: int| 0 <= j < t.len() && t[j].0@ == u;
            if j < ns.len() {
                assert(ns[j].0@ == u);
            }
        }
        if ns_has(ns, u) {
            let j = choose|j: int| 0 <= j < ns.len() && ns[j].0@ == u;
            assert(t[j].0@ == u);
        }
        if e.0@ == u {
            assert(t[ns.len() as int].0@ == u);
        }
    }
    if ns.len() == 0 {
        assert forall|u: Seq<char>| #[trigger] ns_lookup(t, u) == (if ns_has(ns, u) {
            ns_lookup(ns, u)
        } else if e.0@ == u {
            e.1@
        } else {
            Seq::<ProductId>::empty()
        }) by {
            assert(t[0] == e);
            if e.0@ != u {
                assert(t.drop_first() =~= Seq::<(String, Vec<ProductId>)>::empty());
                assert(ns_lookup(t.drop_first(), u) == Seq::<ProductId>::empty());
            }
        }
    } else {
        let rest = ns.drop_first();
        assert(forall|a: int| 0 <= a < rest.len() ==> rest[a] == ns[a + 1]);
        lemma_ns_lookup_push(rest, e);
        assert(t.drop_first() =~= rest.push(e));
        assert forall|u: Seq<char>| #[trigger] ns_lookup(t, u) == (if ns_has(ns, u) {
            ns_lookup(ns, u)
        } else if e.0@ == u {
            e.1@
        } else {
            Seq::<ProductId>::empty()
        }) by {
            assert(t[0] == ns[0]);
            if ns[0].0@ == u {
            } else {
                assert(ns_lookup(t, u) == ns_lookup(rest.push(e), u));
                assert(ns_lookup(ns, u) == ns_lookup(rest, u));
                assert(ns_has(ns, u) <==> ns_has(rest, u)) by {
                    if ns_has(ns, u) {
                        let j = choose|j: int| 0 <= j < ns.len() && ns[j].0@ == u;
                        assert(j > 0);
                        assert(rest[j - 1].0@ == u);
                    }
                    if ns_has(rest, u) {
                        let j = choose|j: int| 0 <= j < rest.len() && rest[j].0@ == u;
                        assert(ns[j + 1].0@ == u);
                    }
                }
            }
        }
        if ns_keys_distinct(ns) && !ns_has(ns, e.0@) {
            assert forall|i: int, j: int| 0 <= i < j < t.len() implies t[i].0@ != t[j].0@ by {
                if j == ns.len() {
                    assert(t[i].0@ == ns[i].0@);
                    assert(!ns_has(ns, e.0@));
                }
            }
        }
    }
}

fn copy_ids(v: &Vec<ProductId>) -> (r: Vec<ProductId>)
    ensures
        r@ == v@,
{
    let mut r: Vec<ProductId> = Vec::new();
    let mut i: usize = 0;
    while i < v.len()
        invariant
            i <= v@.len(),
            r@ =~= v@.take(i as int),
        decreases v@.len() - i,
    {
        r.push(v[i]);
        proof {
            assert(r@ =~= v@.take(i + 1));
        }
        i = i + 1;
    }
    proof {
        assert(v@.take(v@.len() as int) =~= v@);
    }
    r
}

/// Character-wise string equality.
pub(crate) fn str_eq(a: &str, b: &str) -> (r: bool)
    ensures
        r == (a@ == b@),
{
    let la = a.unicode_len();
    let lb = b.unicode_len();
    if la != lb {
        return false;
    }
    let mut i: usize = 0;
    while i < la
        invariant
            i <= la,
            la == a@.len(),
            la == b@.len(),
            forall|j: int| 0 <= j < i ==> a@[j] == b@[j],
        decreases la - i,
    {
        if a.get_char(i) != b.get_char(i) {
            return false;
        }
        i = i + 1;
    }
    proof {
        assert(a@ =~= b@);
    }
    true
}

/// The position of key `t` in the namespace, when present.
fn ns_find(ns: &Namespace, t: &str) -> (r: Option<usize>)
    ensures
        match r {
            Some(i) => i < ns@.len() && ns@[i as int].0@ == t@,
            None => !ns_has(ns@, t@),
        },
{
    let mut i: usize = 0;
    while i < ns.len()
        invariant
            i <= ns@.len(),
            forall|j: int| 0 <= j < i ==> ns@[j].0@ != t@,
        decreases ns@.len() - i,
    {
        let hit = str_eq(ns[i].0.as_str(), t);
        if hit {
            return Some(i);
        }
        i = i + 1;
    }
    None
}

/// Append `id` to the list for token `t`, creating the entry when absent.
fn ns_append(ns: &mut Namespace, t: &str, id: ProductId)
    requires
        ns_keys_distinct(old(ns)@),
    ensures
        ns_keys_distinct(final(ns)@),
        ns_lookup(final(ns)@, t@) == ns_lookup(old(ns)@, t@).push(id),
        forall|u: Seq<char>| u != t@ ==> #[trigger] ns_lookup(final(ns)@, u) == ns_lookup(
            old(ns)@,
            u,
        ),
{
    let found = ns_find(ns, t);
    match found {
        Some(i) => {
            let mut ids = copy_ids(&ns[i].1);
            ids.push(id);
            let key = String::from_str(ns[i].0.as_str());
            let ghost pre = ns@;
            let ghost entry = (key, ids);
            proof {
                lemma_ns_lookup_at(pre, i as int);
            }
            vec_set(ns, i, (key, ids));
            proof {
                lemma_ns_lookup_update(pre, i as int, ns@[i as int]);
            }
        },
        None => {
            let mut ids: Vec<ProductId> = Vec::new();
            ids.push(id);
            let ghost pre = ns@;
            ns.push((String::from_str(t), ids));
            proof {
                lemma_ns_lookup_push(pre, ns@[pre.len() as int]);
                lemma_ns_lookup_absent(pre, t@);
                assert(ns_lookup(ns@, t@) =~= ns_lookup(pre, t@).push(id));
                assert forall|u: Seq<char>| u != t@ implies #[trigger] ns_lookup(ns@, u)
                    == ns_lookup(pre, u) by {
                    if !ns_has(pre, u) {
                        lemma_ns_lookup_absent(pre, u);
                    }
                }
            }
        },
    }
}

/// The inverted index over a snapshot of items.
pub struct SearchIndex {
    by_name: Namespace,
    by_category: Namespace,
    by_tag: Namespace,
}

impl SearchIndex {
    /// The id list the name namespace records for token `t`.
    pub closed spec fn name_list(&self, t: Seq<char>) -> Seq<ProductId> {
        ns_lookup(self.by_name@, t)
    }

    /// The id list the category namespace records for token `t`.
    pub closed spec fn category_list(&self, t: Seq<char>) -> Seq<ProductId> {
        ns_lookup(self.by_category@, t)
    }

    /// The id list the tag namespace records for token `t`.
    pub closed spec fn tag_list(&self, t: Seq<char>) -> Seq<ProductId> {
        ns_lookup(self.by_tag@, t)
    }

    /// Internal shape: every namespace has pairwise distinct keys.
    pub closed spec fn wf(&self) -> bool {
        ns_keys_distinct(self.by_name@) && ns_keys_distinct(self.by_category@)
            && ns_keys_distinct(self.by_tag@)
    }

    /// Sealed: every id list of every namespace is sorted ascending with no
    /// duplicates. Required before searching.
    pub open spec fn sealed(&self) -> bool {
        &&& forall|t: Seq<char>| strictly_ascending(#[trigger] self.name_list(t))
        &&& forall|t: Seq<char>| strictly_ascending(#[trigger] self.category_list(t))
        &&& forall|t: Seq<char>| strictly_ascending(#[trigger] self.tag_list(t))
    }

    /// A fresh, empty index: every list of every namespace is empty.
    pub fn new() -> (r: SearchIndex)
        ensures
            r.wf(),
            r.sealed(),
            forall|t: Seq<char>| #[trigger] r.name_list(t) == Seq::<ProductId>::empty(),
            forall|t: Seq<char>| #[trigger] r.category_list(t) == Seq::<ProductId>::empty(),
            forall|t: Seq<char>| #[trigger] r.tag_list(t) == Seq::<ProductId>::empty(),
    {
        let r = SearchIndex { by_name: Vec::new(), by_category: Vec::new(), by_tag: Vec::new() };
        proof {
            assert(r.by_name@.len() == 0);
            assert(r.by_category@.len() == 0);
            assert(r.by_tag@.len() == 0);
        }
        r
    }

    /// Record one item: each token of its name in the name namespace, its
    /// normalized category as one atomic token in the category namespace,
    /// and each normalized tag in the tag namespace, appending the item's id
    /// to the matching list once per occurrence; every other list is
    /// unchanged.
    pub fn add_product(&mut self, p: &Product)
        requires
            old(self).wf(),
        ensures
            final(self).wf(),
            forall|t: Seq<char>|
                #[trigger] final(self).name_list(t) == old(self).name_list(t) + repeat_id(
                    p@.id,
                    count_occ(spec_tokenize(p@.name), t),
                ),
            final(self).category_list(norm_of(p@.category)) == old(self).category_list(
                norm_of(p@.category),
            ).push(p@.id),
            forall|t: Seq<char>|
                t != norm_of(p@.category) ==> #[trigger] final(self).category_list(t)
                    == old(self).category_list(t),
            forall|t: Seq<char>|
                #[trigger] final(self).tag_list(t) == old(self).tag_list(t) + repeat_id(
                    p@.id,
                    count_occ(norm_tags(p@.tags), t),
                ),
            forall|t: Seq<char>, x: ProductId|
                #[trigger] final(self).name_list(t).contains(x) <==> (old(self).name_list(
                    t,
                ).contains(x) || (x == p@.id && name_matches(p@, t))),
            forall|t: Seq<char>, x: ProductId|
                #[trigger] final(self).category_list(t).contains(x) <==> (old(self).category_list(
                    t,
                ).contains(x) || (x == p@.id && category_matches(p@, t))),
            forall|t: Seq<char>, x: ProductId|
                #[trigger] final(self).tag_list(t).contains(x) <==> (old(self).tag_list(
                    t,
                ).contains(x) || (x == p@.id && tag_matches(p@, t))),
    {
        let toks = tokenize(p.name.as_str());
        let ghost tokviews = toks@.map_values(|t: String| t@);
        proof {
            assert forall|t: Seq<char>| #[trigger] ns_lookup(self.by_name@, t) == ns_lookup(
                old(self).by_name@,
                t,
            ) + repeat_id(p@.id, count_occ(tokviews.take(0), t)) by {
                assert(tokviews.take(0) =~= Seq::<Seq<char>>::empty());
                assert(repeat_id(p@.id, 0) =~= Seq::<ProductId>::empty());
                assert(ns_lookup(old(self).by_name@, t) + Seq::<ProductId>::empty() =~= ns_lookup(
                    old(self).by_name@,
                    t,
                ));
            }
        }
        let mut k: usize = 0;
        while k < toks.len()
            invariant
                k <= toks@.len(),
                tokviews == toks@.map_values(|t: String| t@),
                tokviews == spec_tokenize(p@.name),
                ns_keys_distinct(self.by_name@),
                self.by_category == old(self).by_category,
                self.by_tag == old(self).by_tag,
                forall|t: Seq<char>|
                    #[trigger] ns_lookup(self.by_name@, t) == ns_lookup(old(self).by_name@, t)
                        + repeat_id(p@.id, count_occ(tokviews.take(k as int), t)),
            decreases toks@.len() - k,
        {
            let ghost pre = self.by_name@;
            ns_append(&mut self.by_name, toks[k].as_str(), p.id);
            proof {
                let tk = tokviews[k as int];
                assert(toks@[k as int]@ == tk);
                assert forall|t: Seq<char>| #[trigger] ns_lookup(self.by_name@, t) == ns_lookup(
                    old(self).by_name@,
                    t,
                ) + repeat_id(p@.id, count_occ(tokviews.take(k + 1), t)) by {
                    lemma_count_occ_step(tokviews, k as int, t);
                    let base = ns_lookup(old(self).by_name@, t);
                    let c = count_occ(tokviews.take(k as int), t);
                    if t == tk {
                        assert(ns_lookup(self.by_name@, t) == ns_lookup(pre, t).push(p.id));
                        assert((base + repeat_id(p@.id, c)).push(p@.id) =~= base + repeat_id(
                            p@.id,
                            c + 1,
                        ));
                    } else {
                        assert(ns_lookup(self.by_name@, t) == ns_lookup(pre, t));
                    }
                }
            }
            k = k + 1;
        }
        proof {
            assert(tokviews.take(tokviews.len() as int) =~= tokviews);
        }
        let cat = normalize_token(p.category.as_str());
        let ghost precat = self.by_category@;
        ns_append(&mut self.by_category, cat.as_str(), p.id);
        proof {
            assert(cat@ == norm_of(p@.category));
        }
        let ghost namesnap = self.by_name@;
        let ghost catsnap = self.by_category@;
        let ghost pretags = self.by_tag@;
        let ghost tagviews = norm_tags(p@.tags);
        proof {
            assert forall|t: Seq<char>| #[trigger] ns_lookup(self.by_tag@, t) == ns_lookup(
                pretags,
                t,
            ) + repeat_id(p@.id, count_occ(tagviews.take(0), t)) by {
                assert(tagviews.take(0) =~= Seq::<Seq<char>>::empty());
                assert(repeat_id(p@.id, 0) =~= Seq::<ProductId>::empty());
                assert(ns_lookup(pretags, t) + Seq::<ProductId>::empty() =~= ns_lookup(pretags, t));
            }
        }
        let mut k: usize = 0;
        while k < p.tags.len()
            invariant
                k <= p.tags@.len(),
                tagviews == norm_tags(p@.tags),
                tagviews.len() == p.tags@.len(),
                self.by_name@ == namesnap,
                self.by_category@ == catsnap,
                ns_keys_distinct(self.by_tag@),
                forall|t: Seq<char>|
                    #[trigger] ns_lookup(self.by_tag@, t) == ns_lookup(pretags, t) + repeat_id(
                        p@.id,
                        count_occ(tagviews.take(k as int), t),
                    ),
            decreases p.tags@.len() - k,
        {
            let tag = normalize_token(p.tags[k].as_str());
            let ghost pre = self.by_tag@;
            ns_append(&mut self.by_tag, tag.as_str(), p.id);
            proof {
                assert(p@.tags[k as int] == p.tags@[k as int]@);
                assert(tag@ == norm_of(p@.tags[k as int]));
                assert(tag@ == tagviews[k as int]);
                assert forall|t: Seq<char>| #[trigger] ns_lookup(self.by_tag@, t) == ns_lookup(
                    pretags,
                    t,
                ) + repeat_id(p@.id, count_occ(tagviews.take(k + 1), t)) by {
                    lemma_count_occ_step(tagviews, k as int, t);
                    let base = ns_lookup(pretags, t);
                    let c = count_occ(tagviews.take(k as int), t);
                    if t == tag@ {
                        assert(ns_lookup(self.by_tag@, t) == ns_lookup(pre, t).push(p.id));
                        assert((base + repeat_id(p@.id, c)).push(p@.id) =~= base + repeat_id(
                            p@.id,
                            c + 1,
                        ));
                    } else {
                        assert(ns_lookup(self.by_tag@, t) == ns_lookup(pre, t));
                    }
                }
            }
            k = k + 1;
        }
        proof {
            assert(tagviews.take(tagviews.len() as int) =~= tagviews);
            assert forall|t: Seq<char>, x: ProductId|
                #[trigger] ns_lookup(self.by_name@, t).contains(x) <==> (ns_lookup(
                    old(self).by_name@,
                    t,
                ).contains(x) || (x == p@.id && name_matches(p@, t))) by {
                let base = ns_lookup(old(self).by_name@, t);
                let c = count_occ(tokviews, t);
                lemma_concat_contains(base, repeat_id(p@.id, c), x);
                lemma_count_occ_positive(tokviews, t);
                assert(repeat_id(p@.id, c).contains(x) <==> (c > 0 && x == p@.id)) by {
                    if repeat_id(p@.id, c).contains(x) {
                        let m = choose|m: int|
                            0 <= m < repeat_id(p@.id, c).len() && repeat_id(p@.id, c)[m] == x;
                    }
                    if c > 0 && x == p@.id {
                        assert(repeat_id(p@.id, c)[0] == x);
                    }
                }
            }
            assert forall|t: Seq<char>, x: ProductId|
                #[trigger] ns_lookup(self.by_category@, t).contains(x) <==> (ns_lookup(
                    precat,
                    t,
                ).contains(x) || (x == p@.id && category_matches(p@, t))) by {
                if t == cat@ {
                    assert(ns_lookup(self.by_category@, t) == ns_lookup(precat, t).push(p.id));
                    lemma_push_contains(ns_lookup(precat, t), p.id, x);
                } else {
                    assert(ns_lookup(self.by_category@, t) == ns_lookup(precat, t));
                }
            }
            assert forall|t: Seq<char>, x: ProductId|
                #[trigger] ns_lookup(self.by_tag@, t).contains(x) <==> (ns_lookup(
                    pretags,
                    t,
                ).contains(x) || (x == p@.id && tag_matches(p@, t))) by {
                let base = ns_lookup(pretags, t);
                let c = count_occ(tagviews, t);
                lemma_concat_contains(base, repeat_id(p@.id, c), x);
                lemma_count_occ_positive(tagviews, t);
                assert(repeat_id(p@.id, c).contains(x) <==> (c > 0 && x == p@.id)) by {
                    if repeat_id(p@.id, c).contains(x) {
                        let m = choose|m: int|
                            0 <= m < repeat_id(p@.id, c).len() && repeat_id(p@.id, c)[m] == x;
                    }
                    if c > 0 && x == p@.id {
                        assert(repeat_id(p@.id, c)[0] == x);
                    }
                }
                assert(tagviews.contains(t) <==> tag_matches(p@, t)) by {
                    if tagviews.contains(t) {
                        let m = choose|m: int| 0 <= m < tagviews.len() && tagviews[m] == t;
                        assert(t == norm_of(p@.tags[m]));
                    }
                    if tag_matches(p@, t) {
                        let j = choose|j: int|
                            0 <= j < p@.tags.len() && t == norm_of(#[trigger] p@.tags[j]);
                        assert(tagviews[j] == t);
                    }
                }
            }
        }
    }

    /// The id list recorded for token `t` in the name namespace, when any.
    pub fn name_ids<'b>(&'b self, t: &str) -> (r: Option<&'b Vec<ProductId>>)
        requires
            self.wf(),
        ensures
            match r {
                Some(v) => v@ == self.name_list(t@),
                None => self.name_list(t@) == Seq::<ProductId>::empty(),
            },
    {
        let found = ns_find(&self.by_name, t);
        match found {
            Some(i) => {
                proof {
                    lemma_ns_lookup_at(self.by_name@, i as int);
                }
                Some(&self.by_name[i].1)
            },
            None => {
                proof {
                    lemma_ns_lookup_absent(self.by_name@, t@);
                }
                None
            },
        }
    }

    /// The id list recorded for token `t` in the category namespace.
    pub fn category_ids<'b>(&'b self, t: &str) -> (r: Option<&'b Vec<ProductId>>)
        requires
            self.wf(),
        ensures
            match r {
                Some(v) => v@ == self.category_list(t@),
                None => self.category_list(t@) == Seq::<ProductId>::empty(),
            },
    {
        let found = ns_find(&self.by_category, t);
        match found {
            Some(i) => {
                proof {
                    lemma_ns_lookup_at(self.by_category@, i as int);
                }
                Some(&self.by_category[i].1)
            },
            None => {
                proof {
                    lemma_ns_lookup_absent(self.by_category@, t@);
                }
                None
            },
        }
    }

    /// The id list recorded for token `t` in the tag namespace.
    pub fn tag_ids<'b>(&'b self, t: &str) -> (r: Option<&'b Vec<ProductId>>)
        requires
            self.wf(),
        ensures
            match r {
                Some(v) => v@ == self.tag_list(t@),
                None => self.tag_list(t@) == Seq::<ProductId>::empty(),
            },
    {
        let found = ns_find(&self.by_tag, t);
        match found {
            Some(i) => {
                proof {
                    lemma_ns_lookup_at(self.by_tag@, i as int);
                }
                Some(&self.by_tag[i].1)
            },
            None => {
                proof {
                    lemma_ns_lookup_absent(self.by_tag@, t@);
                }
                None
            },
        }
    }

    /// Seal the index: sort every id list ascending and drop duplicate ids,
    /// in all three namespaces. The recorded membership is unchanged.
    pub fn finalize(&mut self)
        requires
            old(self).wf(),
        ensures
            final(self).wf(),
            final(self).sealed(),
            forall|t: Seq<char>, x: ProductId|
                #[trigger] final(self).name_list(t).contains(x) <==> old(self).name_list(
                    t,
                ).contains(x),
            forall|t: Seq<char>, x: ProductId|
                #[trigger] final(self).category_list(t).contains(x) <==> old(self).category_list(
                    t,
                ).contains(x),
            forall|t: Seq<char>, x: ProductId|
                #[trigger] final(self).tag_list(t).contains(x) <==> old(self).tag_list(
                    t,
                ).contains(x),
    {
        seal_ns(&mut self.by_name);
        seal_ns(&mut self.by_category);
        seal_ns(&mut self.by_tag);
    }
}

/// Sort and deduplicate every id list of the namespace.
fn seal_ns(ns: &mut Namespace)
    requires
        ns_keys_distinct(old(ns)@),
    ensures
        ns_keys_distinct(final(ns)@),
        forall|t: Seq<char>, x: ProductId|
            #[trigger] ns_lookup(final(ns)@, t).contains(x) <==> ns_lookup(old(ns)@, t).contains(x),
        forall|t: Seq<char>| strictly_ascending(#[trigger] ns_lookup(final(ns)@, t)),
{
    let n = ns.len();
    let mut i: usize = 0;
    while i < n
        invariant
            i <= n,
            n == ns@.len(),
            old(ns)@.len() == n,
            forall|j: int| 0 <= j < n ==> #[trigger] ns@[j].0@ == old(ns)@[j].0@,
            forall|j: int| i <= j < n ==> #[trigger] ns@[j].1@ == old(ns)@[j].1@,
            forall|j: int, x: ProductId|
                0 <= j < i ==> (#[trigger] ns@[j].1@.contains(x) <==> old(ns)@[j].1@.contains(x)),
            forall|j: int| 0 <= j < i ==> strictly_ascending(#[trigger] ns@[j].1@),
        decreases n - i,
    {
        let ids = sorted_unique_ids(&ns[i].1);
        let key = String::from_str(ns[i].0.as_str());
        vec_set(ns, i, (key, ids));
        i = i + 1;
    }
    proof {
        assert(ns_keys_distinct(ns@)) by {
            assert(forall|a: int, b: int|
                0 <= a < b < ns@.len() ==> old(ns)@[a].0@ != old(ns)@[b].0@);
        }
        assert forall|t: Seq<char>| strictly_ascending(#[trigger] ns_lookup(ns@, t)) && (forall|
            x: ProductId,
        |
            #[trigger] ns_lookup(ns@, t).contains(x) <==> ns_lookup(old(ns)@, t).contains(x)) by {
            if ns_has(ns@, t) {
                let j = choose|j: int| 0 <= j < ns@.len() && ns@[j].0@ == t;
                lemma_ns_lookup_at(ns@, j);
                lemma_ns_lookup_at(old(ns)@, j);
                assert(ns_lookup(ns@, t) == ns@[j].1@);
                assert(ns_lookup(old(ns)@, t) == old(ns)@[j].1@);
            } else {
                lemma_ns_lookup_absent(ns@, t);
                assert(!ns_has(old(ns)@, t)) by {
                    if ns_has(old(ns)@, t) {
                        let j = choose|j: int| 0 <= j < old(ns)@.len() && old(ns)@[j].0@ == t;
                        assert(ns@[j].0@ == t);
                    }
                }
                lemma_ns_lookup_absent(old(ns)@, t);
            }
        }
    }
}

} // verus!
