//! The relationship graph: a weighted, symmetric graph over item ids,
//! stored as one adjacency row per item. Two items relate with weight
//! 2 when their normalized categories are equal, plus one per distinct
//! shared normalized tag; only positive weights become edges, in both
//! directions. `recommend` returns the top-k neighbors by weight, ties
//! broken by ascending neighbor id.

use crate::indexer::str_eq;
use crate::models::{Product, ProductId, ProductView};
use crate::normalizer::{norm_of, norm_tags, normalize_token};
use crate::ranking::{
    ids_distinct, lemma_rank_at, lemma_rank_same_entries, lemma_take_step, rank_has, rank_le,
    rank_of, ranked_ids, sort_ranked, Ranked,
};
use vstd::prelude::*;

verus! {

broadcast use vstd::seq_lib::seq_to_set_is_finite;

/// The set of normalized tags of a tag list.
pub open spec fn norm_tag_set(tags: Seq<Seq<char>>) -> Set<Seq<char>> {
    norm_tags(tags).to_set()
}

/// The number of distinct normalized tags two items share.
pub open spec fn shared_tags(a: ProductView, b: ProductView) -> nat {
    norm_tag_set(a.tags).intersect(norm_tag_set(b.tags)).len()
}

/// The relationship weight of two items: 2 when their normalized categories
/// are equal, plus the number of shared normalized tags.
pub open spec fn spec_weight(a: ProductView, b: ProductView) -> nat {
    (if norm_of(a.category) == norm_of(b.category) {
        2nat
    } else {
        0nat
    }) + shared_tags(a, b)
}

/// The relationship weight is symmetric in its two items.
pub proof fn lemma_weight_symmetric(a: ProductView, b: ProductView)
    ensures
        spec_weight(a, b) == spec_weight(b, a),
{
    assert(norm_tag_set(a.tags).intersect(norm_tag_set(b.tags)) =~= norm_tag_set(
        b.tags,
    ).intersect(norm_tag_set(a.tags)));
}

/// The adjacency row for position `x` agrees, over the first `upto` items
/// of the snapshot, with the weight rule: it holds `(nb, w)` exactly for
/// the other items `nb` whose weight against item `x` is `w >= 1`.
pub open spec fn row_ok(row: Seq<Ranked>, products: Seq<Product>, x: int, upto: int) -> bool {
    forall|nb: ProductId, w: u128|
        #[trigger] row.contains((nb, w)) <==> (exists|y: int|
            0 <= y < upto && y != x && products[y]@.id == nb && w as nat == spec_weight(
                products[x]@,
                products[y]@,
            ) && w >= 1)
}

proof fn lemma_push_pair_contains<A>(s: Seq<A>, v: A, y: A)
    ensures
        s.push(v).contains(y) <==> (s.contains(y) || y == v),
{
    if s.push(v).contains(y) {
        let m = choose|m: int| 0 <= m < s.push(v).len() && s.push(v)[m] == y;
        if m < s.len() {
            assert(s[m] == y);
        }
    }
    if s.contains(y) {
        let m = choose|m: int| 0 <= m < s.len() && s[m] == y;
        assert(s.push(v)[m] == y);
    }
    assert(s.push(v)[s.len() as int] == v);
}

/// Whether some of the first `upto` strings equals `x`.
fn str_in_upto(v: &Vec<String>, upto: usize, x: &str) -> (r: bool)
    requires
        upto <= v@.len(),
    ensures
        r == exists|j: int| 0 <= j < upto && #[trigger] v@[j]@ == x@,
{
    let mut j: usize = 0;
    while j < upto
        invariant
            j <= upto <= v@.len(),
            forall|m: int| 0 <= m < j ==> v@[m]@ != x@,
        decreases upto - j,
    {
        let hit = str_eq(v[j].as_str(), x);
        if hit {
            return true;
        }
        j = j + 1;
    }
    false
}

/// The normalized forms of the item's tags, in order.
fn normalized_tags(p: &Product) -> (r: Vec<String>)
    ensures
        r@.len() == p@.tags.len(),
        forall|j: int| 0 <= j < r@.len() ==> #[trigger] r@[j]@ == norm_tags(p@.tags)[j],
{
    let mut r: Vec<String> = Vec::new();
    let mut i: usize = 0;
    while i < p.tags.len()
        invariant
            i <= p.tags@.len(),
            p@.tags.len() == p.tags@.len(),
            r@.len() == i as int,
            forall|j: int| 0 <= j < i ==> #[trigger] r@[j]@ == norm_tags(p@.tags)[j],
        decreases p.tags@.len() - i,
    {
        let t = normalize_token(p.tags[i].as_str());
        proof {
            assert(p.tags@[i as int]@ == p@.tags[i as int]);
            assert(norm_tags(p@.tags)[i as int] == norm_of(p@.tags[i as int]));
        }
        r.push(t);
        i = i + 1;
    }
    r
}

/// The relationship graph over a snapshot of items.
pub struct ProductGraph {
    ids: Vec<ProductId>,
    adj: Vec<Vec<Ranked>>,
}

impl ProductGraph {
    /// The ids with a node, in snapshot order.
    pub closed spec fn node_ids(&self) -> Seq<ProductId> {
        self.ids@
    }

    /// Whether `id` has a node.
    pub open spec fn has_node(&self, id: ProductId) -> bool {
        self.node_ids().contains(id)
    }

    /// The outgoing edges of `id`'s node: neighbor ids with their weights.
    pub closed spec fn neighbors(&self, id: ProductId) -> Seq<Ranked> {
        if self.has_node(id) {
            let i = choose|i: int| 0 <= i < self.ids@.len() && self.ids@[i] == id;
            self.adj@[i]@
        } else {
            Seq::empty()
        }
    }

    /// Shape invariant: one adjacency row per node, pairwise distinct node
    /// ids; within a row, distinct neighbor ids, no self edge, and only
    /// positive weights.
    pub closed spec fn wf(&self) -> bool {
        &&& self.ids@.len() == self.adj@.len()
        &&& forall|i: int, j: int| 0 <= i < j < self.ids@.len() ==> self.ids@[i] != self.ids@[j]
        &&& forall|i: int| 0 <= i < self.adj@.len() ==> ids_distinct(#[trigger] self.adj@[i]@)
        &&& forall|i: int, e: Ranked|
            0 <= i < self.adj@.len() && (#[trigger] self.adj@[i]@.contains(e)) ==> e.0
                != self.ids@[i] && e.1 >= 1
    }

    proof fn lemma_neighbors_at(&self, x: int)
        requires
            self.wf(),
            0 <= x < self.node_ids().len(),
        ensures
            self.neighbors(self.node_ids()[x]) == self.adj@[x]@,
    {
        let id = self.ids@[x];
        assert(self.has_node(id));
        let i = choose|i: int| 0 <= i < self.ids@.len() && self.ids@[i] == id;
        assert(i == x);
    }

    /// A fresh graph with no nodes.
    pub fn new() -> (r: ProductGraph)
        ensures
            r.wf(),
            r.node_ids() == Seq::<ProductId>::empty(),
    {
        let r = ProductGraph { ids: Vec::new(), adj: Vec::new() };
        proof {
            assert(r.ids@ =~= Seq::<ProductId>::empty());
        }
        r
    }

    /// The weight of `a` against `b`: 2 for equal normalized categories,
    /// plus the number of distinct shared normalized tags.
    fn weight(&self, a: &Product, b: &Product) -> (w: u128)
        ensures
            w as nat == spec_weight(a@, b@),
    {
        let ca = normalize_token(a.category.as_str());
        let cb = normalize_token(b.category.as_str());
        let cat_eq = str_eq(ca.as_str(), cb.as_str());
        let na = normalized_tags(a);
        let nb = normalized_tags(b);
        let ghost nas = norm_tags(a@.tags);
        let ghost bset = norm_tag_set(b@.tags);
        let mut count: u128 = 0;
        let mut i: usize = 0;
        proof {
            assert(nas.take(0).to_set().intersect(bset) =~= Set::<Seq<char>>::empty());
        }
        while i < na.len()
            invariant
                i <= na@.len(),
                na@.len() == nas.len(),
                nb@.len() == norm_tags(b@.tags).len(),
                forall|j: int| 0 <= j < na@.len() ==> #[trigger] na@[j]@ == nas[j],
                forall|j: int| 0 <= j < nb@.len() ==> #[trigger] nb@[j]@ == norm_tags(b@.tags)[j],
                bset == norm_tag_set(b@.tags),
                nas == norm_tags(a@.tags),
                count as int == nas.take(i as int).to_set().intersect(bset).len(),
                count as int <= i as int,
            decreases na@.len() - i,
        {
            let ghost pres = nas.take(i as int).to_set();
            let seen = str_in_upto(&na, i, na[i].as_str());
            let in_b = str_in_upto(&nb, nb.len(), na[i].as_str());
            let ghost x = nas[i as int];
            proof {
                assert(na@[i as int]@ == x);
                assert(pres.contains(x) <==> seen) by {
                    if pres.contains(x) {
                        let m = choose|m: int|
                            0 <= m < nas.take(i as int).len() && #[trigger] nas.take(i as int)[m]
                                == x;
                        assert(na@[m]@ == x);
                    }
                    if seen {
                        let m = choose|m: int| 0 <= m < i && #[trigger] na@[m]@ == x;
                        assert(nas.take(i as int)[m] == x);
                        assert(nas.take(i as int).contains(x));
                    }
                }
                assert(bset.contains(x) <==> in_b) by {
                    if bset.contains(x) {
                        assert(norm_tags(b@.tags).contains(x));
                        let m = choose|m: int|
                            0 <= m < norm_tags(b@.tags).len() && #[trigger] norm_tags(b@.tags)[m]
                                == x;
                        assert(nb@[m]@ == x);
                    }
                    if in_b {
                        let m = choose|m: int| 0 <= m < nb@.len() && #[trigger] nb@[m]@ == x;
                        assert(norm_tags(b@.tags)[m] == x);
                        assert(norm_tags(b@.tags).contains(x));
                    }
                }
                lemma_take_step(nas, i as int);
                assert(nas.take(i + 1).to_set() =~= pres.insert(x));
            }
            if in_b && !seen {
                count = count + 1;
                proof {
                    assert(pres.insert(x).intersect(bset) =~= pres.intersect(bset).insert(x));
                    assert(!pres.intersect(bset).contains(x));
                }
            } else {
                proof {
                    if in_b {
                        assert(pres.insert(x).intersect(bset) =~= pres.intersect(bset).insert(x));
                        assert(pres.intersect(bset).contains(x));
                        assert(pres.intersect(bset).insert(x) =~= pres.intersect(bset));
                    } else {
                        assert(pres.insert(x).intersect(bset) =~= pres.intersect(bset));
                    }
                }
            }
            i = i + 1;
        }
        proof {
            assert(nas.take(nas.len() as int) =~= nas);
            assert(nas.to_set() == norm_tag_set(a@.tags));
            assert(ca@ == norm_of(a@.category));
            assert(cb@ == norm_of(b@.category));
        }
        if cat_eq {
            2 + count
        } else {
            count
        }
    }

    /// Rebuild the graph from a whole snapshot: one node per item, and for
    /// every pair of distinct items with positive weight, an edge in both
    /// directions carrying that weight. Any prior graph is discarded.
    pub fn build(&mut self, products: &Vec<Product>)
        requires
            forall|i: int, j: int|
                0 <= i < j < products@.len() ==> products@[i]@.id != products@[j]@.id,
        ensures
            final(self).wf(),
            final(self).node_ids().len() == products@.len(),
            forall|i: int|
                0 <= i < products@.len() ==> final(self).node_ids()[i] == products@[i]@.id,
            forall|x: int|
                0 <= x < products@.len() ==> row_ok(
                    #[trigger] final(self).neighbors(products@[x]@.id),
                    products@,
                    x,
                    products@.len() as int,
                ),
            forall|a: ProductId, b: ProductId, w: u128|
                #[trigger] final(self).neighbors(a).contains((b, w)) ==> final(self).neighbors(
                    b,
                ).contains((a, w)),
    {
        let n = products.len();
        let mut ids: Vec<ProductId> = Vec::new();
        let mut i: usize = 0;
        while i < n
            invariant
                i <= n,
                n == products@.len(),
                ids@.len() == i as int,
                forall|j: int| 0 <= j < i ==> ids@[j] == products@[j]@.id,
            decreases n - i,
        {
            ids.push(products[i].id);
            i = i + 1;
        }
        let mut adj: Vec<Vec<Ranked>> = Vec::new();
        let mut x: usize = 0;
        while x < n
            invariant
                x <= n,
                n == products@.len(),
                forall|i2: int, j2: int|
                    0 <= i2 < j2 < products@.len() ==> products@[i2]@.id != products@[j2]@.id,
                adj@.len() == x as int,
                forall|t: int|
                    0 <= t < x ==> row_ok(#[trigger] adj@[t]@, products@, t, n as int),
                forall|t: int| 0 <= t < x ==> ids_distinct(#[trigger] adj@[t]@),
            decreases n - x,
        {
            let mut row: Vec<Ranked> = Vec::new();
            let mut y: usize = 0;
            while y < n
                invariant
                    y <= n,
                    x < n,
                    n == products@.len(),
                    forall|i2: int, j2: int|
                        0 <= i2 < j2 < products@.len() ==> products@[i2]@.id != products@[j2]@.id,
                    row_ok(row@, products@, x as int, y as int),
                    ids_distinct(row@),
                decreases n - y,
            {
                if y != x {
                    let w = self.weight(&products[x], &products[y]);
                    if w >= 1 {
                        let ghost pre = row@;
                        let ghost e = (products@[y as int]@.id, w);
                        row.push((products[y].id, w));
                        proof {
                            assert forall|nb: ProductId, w2: u128|
                                #[trigger] row@.contains((nb, w2)) <==> (exists|y2: int|
                                    0 <= y2 < y + 1 && y2 != x && products@[y2]@.id == nb
                                        && w2 as nat == spec_weight(
                                        products@[x as int]@,
                                        products@[y2]@,
                                    ) && w2 >= 1) by {
                                lemma_push_pair_contains(pre, e, (nb, w2));
                                if pre.contains((nb, w2)) {
                                    let y2 = choose|y2: int|
                                        0 <= y2 < y && y2 != x && products@[y2]@.id == nb
                                            && w2 as nat == spec_weight(
                                            products@[x as int]@,
                                            products@[y2]@,
                                        ) && w2 >= 1;
                                    assert(0 <= y2 < y + 1);
                                }
                                if (nb, w2) == e {
                                    assert(products@[y as int]@.id == nb);
                                }
                            }
                            assert forall|a: int, b: int|
                                0 <= a < b < row@.len() implies row@[a].0 != row@[b].0 by {
                                if b == pre.len() {
                                    assert(pre.contains(pre[a]));
                                    let y2 = choose|y2: int|
                                        0 <= y2 < y && y2 != x && products@[y2]@.id == pre[a].0
                                            && pre[a].1 as nat == spec_weight(
                                            products@[x as int]@,
                                            products@[y2]@,
                                        ) && pre[a].1 >= 1;
                                    assert(products@[y2]@.id != products@[y as int]@.id);
                                }
                            }
                        }
                    } else {
                        proof {
                            assert forall|nb: ProductId, w2: u128|
                                #[trigger] row@.contains((nb, w2)) <==> (exists|y2: int|
                                    0 <= y2 < y + 1 && y2 != x && products@[y2]@.id == nb
                                        && w2 as nat == spec_weight(
                                        products@[x as int]@,
                                        products@[y2]@,
                                    ) && w2 >= 1) by {
                                if exists|y2: int|
                                    0 <= y2 < y + 1 && y2 != x && products@[y2]@.id == nb
                                        && w2 as nat == spec_weight(
                                        products@[x as int]@,
                                        products@[y2]@,
                                    ) && w2 >= 1 {
                                    let y2 = choose|y2: int|
                                        0 <= y2 < y + 1 && y2 != x && products@[y2]@.id == nb
                                            && w2 as nat == spec_weight(
                                            products@[x as int]@,
                                            products@[y2]@,
                                        ) && w2 >= 1;
                                    assert(y2 < y);
                                }
                            }
                        }
                    }
                } else {
                    proof {
                        assert forall|nb: ProductId, w2: u128|
                            #[trigger] row@.contains((nb, w2)) <==> (exists|y2: int|
                                0 <= y2 < y + 1 && y2 != x && products@[y2]@.id == nb && w2 as nat
                                    == spec_weight(products@[x as int]@, products@[y2]@) && w2
                                    >= 1) by {
                            if exists|y2: int|
                                0 <= y2 < y + 1 && y2 != x && products@[y2]@.id == nb && w2 as nat
                                    == spec_weight(products@[x as int]@, products@[y2]@) && w2
                                    >= 1 {
                                let y2 = choose|y2: int|
                                    0 <= y2 < y + 1 && y2 != x && products@[y2]@.id == nb
                                        && w2 as nat == spec_weight(
                                        products@[x as int]@,
                                        products@[y2]@,
                                    ) && w2 >= 1;
                                assert(y2 < y);
                            }
                        }
                    }
                }
                y = y + 1;
            }
            adj.push(row);
            x = x + 1;
        }
        self.ids = ids;
        self.adj = adj;
        proof {
            assert forall|i2: int, e: Ranked|
                0 <= i2 < self.adj@.len() && (#[trigger] self.adj@[i2]@.contains(e)) implies e.0
                != self.ids@[i2] && e.1 >= 1 by {
                assert(row_ok(self.adj@[i2]@, products@, i2, n as int));
                let y2 = choose|y2: int|
                    0 <= y2 < n && y2 != i2 && products@[y2]@.id == e.0 && e.1 as nat
                        == spec_weight(products@[i2]@, products@[y2]@) && e.1 >= 1;
                assert(products@[y2]@.id != products@[i2]@.id);
            }
            assert(self.wf());
            assert forall|x2: int| 0 <= x2 < products@.len() implies row_ok(
                #[trigger] self.neighbors(products@[x2]@.id),
                products@,
                x2,
                products@.len() as int,
            ) by {
                self.lemma_neighbors_at(x2);
                assert(self.neighbors(products@[x2]@.id) == self.adj@[x2]@);
            }
            assert forall|a: ProductId, b: ProductId, w: u128|
                #[trigger] self.neighbors(a).contains((b, w)) implies self.neighbors(b).contains(
                (a, w),
            ) by {
                if self.has_node(a) {
                    let xi = choose|xi: int| 0 <= xi < self.ids@.len() && self.ids@[xi] == a;
                    self.lemma_neighbors_at(xi);
                    assert(self.neighbors(a) == self.adj@[xi]@);
                    assert(row_ok(self.adj@[xi]@, products@, xi, n as int));
                    let y2 = choose|y2: int|
                        0 <= y2 < n && y2 != xi && products@[y2]@.id == b && w as nat
                            == spec_weight(products@[xi]@, products@[y2]@) && w >= 1;
                    lemma_weight_symmetric(products@[xi]@, products@[y2]@);
                    self.lemma_neighbors_at(y2);
                    assert(self.neighbors(self.ids@[y2]) == self.adj@[y2]@);
                    assert(self.ids@[y2] == b);
                    assert(row_ok(self.adj@[y2]@, products@, y2, n as int));
                    assert(self.adj@[y2]@.contains((a, w))) by {
                        assert(products@[xi]@.id == a);
                        assert(0 <= xi < n && xi != y2 && products@[xi]@.id == a && w as nat
                            == spec_weight(products@[y2]@, products@[xi]@) && w >= 1);
                    }
                } else {
                    assert(!self.neighbors(a).contains((b, w)));
                }
            }
        }
    }

    /// The ids of the up-to-`k` heaviest neighbors of `id`, heavier first,
    /// ties broken by ascending neighbor id; empty when `id` has no node.
    /// Every returned id is a neighbor with positive weight, never `id`
    /// itself, and every neighbor left out of a full result ranks at or
    /// below the last returned one.
    pub fn recommend(&self, id: ProductId, k: usize) -> (r: Vec<ProductId>)
        requires
            self.wf(),
        ensures
            r@.len() <= k,
            !self.has_node(id) ==> r@.len() == 0,
            self.has_node(id) ==> r@.len() == (if k as int <= self.neighbors(id).len() {
                k as int
            } else {
                self.neighbors(id).len() as int
            }),
            forall|i: int| 0 <= i < r@.len() ==> #[trigger] r@[i] != id,
            forall|i: int|
                0 <= i < r@.len() ==> rank_has(self.neighbors(id), #[trigger] r@[i]) && rank_of(
                    self.neighbors(id),
                    r@[i],
                ) >= 1,
            forall|i: int, j: int|
                0 <= i < j < r@.len() ==> r@[i] != r@[j] && (rank_of(self.neighbors(id), r@[i])
                    > rank_of(self.neighbors(id), r@[j]) || (rank_of(self.neighbors(id), r@[i])
                    == rank_of(self.neighbors(id), r@[j]) && r@[i] < r@[j])),
            forall|nb: ProductId|
                #[trigger] rank_has(self.neighbors(id), nb) && !r@.contains(nb) ==> r@.len()
                    == k as int && (r@.len() > 0 ==> (rank_of(self.neighbors(id), nb) < rank_of(
                    self.neighbors(id),
                    r@[r@.len() - 1],
                ) || (rank_of(self.neighbors(id), nb) == rank_of(self.neighbors(id), r@[r@.len() - 1])
                    && nb > r@[r@.len() - 1]))),
    {
        let found = find_id(&self.ids, id);
        match found {
            None => {
                proof {
                    assert(!self.has_node(id));
                }
                Vec::new()
            },
            Some(xi) => {
                proof {
                    self.lemma_neighbors_at(xi as int);
                }
                let ghost neigh = self.neighbors(id);
                let arow = &self.adj[xi];
                let mut row: Vec<Ranked> = Vec::new();
                let mut j: usize = 0;
                while j < arow.len()
                    invariant
                        j <= arow@.len(),
                        row@ =~= arow@.take(j as int),
                    decreases arow@.len() - j,
                {
                    row.push(arow[j]);
                    proof {
                        assert(row@ =~= arow@.take(j + 1));
                    }
                    j = j + 1;
                }
                proof {
                    assert(arow@.take(arow@.len() as int) =~= arow@);
                    assert(row@ == neigh);
                }
                sort_ranked(&mut row);
                let ghost sorted = row@;
                proof {
                    lemma_rank_same_entries(neigh, sorted);
                }
                row.truncate(k);
                proof {
                    assert(row@ =~= sorted.take(if k as int <= sorted.len() {
                        k as int
                    } else {
                        sorted.len() as int
                    }));
                }
                let r = ranked_ids(&row);
                let ghost klen = row@.len() as int;
                proof {
                    assert forall|i: int|
                        0 <= i < r@.len() implies #[trigger] r@[i] != id && rank_has(neigh, r@[i])
                        && rank_of(neigh, r@[i]) >= 1 by {
                        assert(r@[i] == sorted[i].0);
                        assert(sorted.contains(sorted[i]));
                        assert(neigh.contains(sorted[i]));
                        assert(sorted[i].0 != self.ids@[xi as int] && sorted[i].1 >= 1);
                        crate::ranking::lemma_rank_entry(neigh, sorted[i].0, sorted[i].1);
                        assert(rank_of(neigh, r@[i]) == sorted[i].1);
                    }
                    assert forall|i: int, j2: int|
                        0 <= i < j2 < r@.len() implies r@[i] != r@[j2] && (rank_of(neigh, r@[i])
                        > rank_of(neigh, r@[j2]) || (rank_of(neigh, r@[i]) == rank_of(
                        neigh,
                        r@[j2],
                    ) && r@[i] < r@[j2])) by {
                        assert(r@[i] == sorted[i].0);
                        assert(r@[j2] == sorted[j2].0);
                        assert(rank_le(sorted[i], sorted[j2]));
                        lemma_rank_at(sorted, i);
                        lemma_rank_at(sorted, j2);
                        assert(rank_of(neigh, sorted[i].0) == rank_of(sorted, sorted[i].0));
                        assert(rank_of(neigh, sorted[j2].0) == rank_of(sorted, sorted[j2].0));
                    }
                    assert forall|nb: ProductId|
                        #[trigger] rank_has(neigh, nb) && !r@.contains(nb) implies r@.len()
                        == k as int && (r@.len() > 0 ==> (rank_of(neigh, nb) < rank_of(
                        neigh,
                        r@[r@.len() - 1],
                    ) || (rank_of(neigh, nb) == rank_of(neigh, r@[r@.len() - 1]) && nb > r@[r@.len()
                        - 1]))) by {
                        assert(rank_has(sorted, nb));
                        let m = choose|m: int| 0 <= m < sorted.len() && sorted[m].0 == nb;
                        if m < klen {
                            assert(r@[m] == nb);
                            assert(r@.contains(nb));
                        }
                        assert(m >= klen);
                        assert(klen == k as int);
                        if klen > 0 {
                            let last = r@[klen - 1];
                            assert(last == sorted[klen - 1].0);
                            assert(rank_le(sorted[klen - 1], sorted[m]));
                            assert(sorted[klen - 1].0 != sorted[m].0);
                            lemma_rank_at(sorted, klen - 1);
                            lemma_rank_at(sorted, m);
                            assert(rank_of(neigh, nb) == rank_of(sorted, nb));
                            assert(rank_of(neigh, last) == rank_of(sorted, last));
                        }
                    }
                }
                r
            },
        }
    }
}

/// The position of `id` in the node list, when present.
fn find_id(v: &Vec<ProductId>, id: ProductId) -> (r: Option<usize>)
    ensures
        match r {
            Some(i) => i < v@.len() && v@[i as int] == id,
            None => !v@.contains(id),
        },
{
    let mut i: usize = 0;
    while i < v.len()
        invariant
            i <= v@.len(),
            forall|j: int| 0 <= j < i ==> v@[j] != id,
        decreases v@.len() - i,
    {
        if v[i] == id {
            return Some(i);
        }
        i = i + 1;
    }
    proof {
        assert(!v@.contains(id)) by {
            if v@.contains(id) {
                let j = choose|j: int| 0 <= j < v@.len() && v@[j] == id;
            }
        }
    }
    None
}

} // verus!
