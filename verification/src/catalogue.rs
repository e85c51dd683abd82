//! The catalogue façade: owns the item snapshot, rebuilds the index and the
//! graph wholesale on demand, and resolves query results back to items.
//! Neither structure follows later snapshot changes by itself: queries
//! reflect a new item only after the matching rebuild.

use crate::graph::{row_ok, ProductGraph};
use crate::indexer::{category_matches, name_matches, tag_matches, SearchIndex};
use crate::models::{Product, ProductId, ProductView};
use crate::ranking::{rank_has, rank_of, Ranked};
use crate::search::{query_score, SearchEngine};
use vstd::prelude::*;

verus! {

/// Whether the snapshot holds an item with id `x`.
pub open spec fn snap_has(s: Seq<Product>, x: ProductId) -> bool {
    exists|i: int| 0 <= i < s.len() && s[i]@.id == x
}

/// The view is that of one of the snapshot's items.
pub open spec fn resolved_from(p: ProductView, s: Seq<Product>) -> bool {
    exists|j: int| 0 <= j < s.len() && p == #[trigger] s[j]@
}

/// The catalogue: the item snapshot with its two query structures.
pub struct Catalogue {
    products: Vec<Product>,
    index: SearchIndex,
    graph: ProductGraph,
}

impl Catalogue {
    /// The current item snapshot.
    pub closed spec fn items(&self) -> Seq<Product> {
        self.products@
    }

    /// The current inverted index.
    pub closed spec fn index(&self) -> SearchIndex {
        self.index
    }

    /// The current relationship graph.
    pub closed spec fn graph(&self) -> ProductGraph {
        self.graph
    }

    /// Item ids are unique, the index is sealed, and the graph is well
    /// shaped.
    pub closed spec fn wf(&self) -> bool {
        &&& forall|i: int, j: int|
            0 <= i < j < self.products@.len() ==> self.products@[i]@.id != self.products@[j]@.id
        &&& self.index.wf()
        &&& self.index.sealed()
        &&& self.graph.wf()
    }

    /// An empty catalogue: no items, an empty index, a graph with no nodes.
    pub fn new() -> (r: Catalogue)
        ensures
            r.wf(),
            r.items() == Seq::<Product>::empty(),
            forall|t: Seq<char>| #[trigger] r.index().name_list(t) == Seq::<ProductId>::empty(),
            forall|t: Seq<char>| #[trigger] r.index().category_list(t) == Seq::<ProductId>::empty(),
            forall|t: Seq<char>| #[trigger] r.index().tag_list(t) == Seq::<ProductId>::empty(),
            r.graph().node_ids() == Seq::<ProductId>::empty(),
    {
        let r = Catalogue {
            products: Vec::new(),
            index: SearchIndex::new(),
            graph: ProductGraph::new(),
        };
        proof {
            assert(r.products@ =~= Seq::<Product>::empty());
        }
        r
    }

    /// Put an item into the snapshot; an item with the same id is replaced
    /// (last write wins). The index and the graph are left untouched, so
    /// queries do not reflect the change until the next rebuild.
    #[verifier::loop_isolation(false)]
    pub fn insert_product(&mut self, p: Product)
        requires
            old(self).wf(),
        ensures
            final(self).wf(),
            final(self).index() == old(self).index(),
            final(self).graph() == old(self).graph(),
            forall|x: ProductId|
                #[trigger] snap_has(final(self).items(), x) <==> (snap_has(old(self).items(), x)
                    || x == p@.id),
            snap_has(old(self).items(), p@.id) ==> exists|i: int|
                0 <= i < old(self).items().len() && old(self).items()[i]@.id == p@.id
                    && final(self).items() == old(self).items().update(i, p),
            !snap_has(old(self).items(), p@.id) ==> final(self).items() == old(self).items().push(
                p,
            ),
    {
        let ghost pre = self.products@;
        let ghost pid = p@.id;
        let mut i: usize = 0;
        let n = self.products.len();
        while i < n
            invariant
                i <= n,
                n == self.products@.len(),
                self.products@ == pre,
                self.index == old(self).index,
                self.graph == old(self).graph,
                forall|j: int| 0 <= j < i ==> self.products@[j]@.id != pid,
                p@.id == pid,
            decreases n - i,
        {
            if self.products[i].id == p.id {
                crate::ranking::vec_set(&mut self.products, i, p);
                proof {
                    assert(snap_has(self.products@, pid)) by {
                        assert(self.products@[i as int]@.id == pid);
                    }
                    assert forall|x: ProductId|
                        #[trigger] snap_has(self.products@, x) <==> (snap_has(pre, x) || x
                            == pid) by {
                        if snap_has(self.products@, x) {
                            let m = choose|m: int|
                                0 <= m < self.products@.len() && self.products@[m]@.id == x;
                            if m != i {
                                assert(pre[m]@.id == x);
                            }
                        }
                        if snap_has(pre, x) {
                            let m = choose|m: int| 0 <= m < pre.len() && pre[m]@.id == x;
                            if m != i {
                                assert(self.products@[m]@.id == x);
                            } else {
                                assert(pre[m]@.id == pid);
                            }
                        }
                    }
                    assert(snap_has(pre, pid)) by {
                        assert(pre[i as int]@.id == pid);
                    }
                    assert(forall|a2: int, b2: int|
                        0 <= a2 < b2 < pre.len() ==> #[trigger] pre[a2]@.id != #[trigger] pre[b2]@.id) by {
                        assert(old(self).wf());
                        assert(forall|a2: int, b2: int|
                            0 <= a2 < b2 < old(self).products@.len()
                                ==> #[trigger] old(self).products@[a2]@.id
                                != #[trigger] old(self).products@[b2]@.id);
                    }
                    assert forall|a: int, b: int|
                        0 <= a < b < self.products@.len() implies self.products@[a]@.id
                        != self.products@[b]@.id by {
                        if a != i && b != i {
                            assert(self.products@[a] == pre[a]);
                            assert(self.products@[b] == pre[b]);
                        } else if a == i {
                            assert(self.products@[a]@.id == pid);
                            assert(self.products@[b] == pre[b]);
                            assert(pre[b]@.id != pre[i as int]@.id);
                        } else {
                            assert(self.products@[b]@.id == pid);
                            assert(self.products@[a] == pre[a]);
                            assert(pre[a]@.id != pre[i as int]@.id);
                        }
                    }
                }
                return ;
            }
            i = i + 1;
        }
        proof {
            assert(!snap_has(pre, pid)) by {
                if snap_has(pre, pid) {
                    let m = choose|m: int| 0 <= m < pre.len() && pre[m]@.id == pid;
                }
            }
        }
        self.products.push(p);
        proof {
            assert forall|x: ProductId|
                #[trigger] snap_has(self.products@, x) <==> (snap_has(pre, x) || x == pid) by {
                if snap_has(self.products@, x) {
                    let m = choose|m: int|
                        0 <= m < self.products@.len() && self.products@[m]@.id == x;
                    if m < pre.len() {
                        assert(pre[m]@.id == x);
                    }
                }
                if snap_has(pre, x) {
                    let m = choose|m: int| 0 <= m < pre.len() && pre[m]@.id == x;
                    assert(self.products@[m]@.id == x);
                }
                if x == pid {
                    assert(self.products@[pre.len() as int]@.id == x);
                }
            }
            assert forall|a: int, b: int|
                0 <= a < b < self.products@.len() implies self.products@[a]@.id
                != self.products@[b]@.id by {
                if b == pre.len() {
                    assert(pre[a]@.id == self.products@[a]@.id);
                    assert(!snap_has(pre, pid));
                }
            }
        }
    }

    /// Rebuild the inverted index from the current snapshot: a fresh empty
    /// index, one `add_product` per item, then `finalize`. Afterwards the
    /// index records exactly the snapshot's token matches, sealed.
    #[verifier::rlimit(60)]
    pub fn build_index(&mut self)
        requires
            old(self).wf(),
        ensures
            final(self).wf(),
            final(self).items() == old(self).items(),
            final(self).graph() == old(self).graph(),
            forall|t: Seq<char>, x: ProductId|
                #[trigger] final(self).index().name_list(t).contains(x) <==> (exists|i: int|
                    0 <= i < final(self).items().len() && final(self).items()[i]@.id == x
                        && name_matches(final(self).items()[i]@, t)),
            forall|t: Seq<char>, x: ProductId|
                #[trigger] final(self).index().category_list(t).contains(x) <==> (exists|i: int|
                    0 <= i < final(self).items().len() && final(self).items()[i]@.id == x
                        && category_matches(final(self).items()[i]@, t)),
            forall|t: Seq<char>, x: ProductId|
                #[trigger] final(self).index().tag_list(t).contains(x) <==> (exists|i: int|
                    0 <= i < final(self).items().len() && final(self).items()[i]@.id == x
                        && tag_matches(final(self).items()[i]@, t)),
    {
        self.index = SearchIndex::new();
        let n = self.products.len();
        let mut i: usize = 0;
        while i < n
            invariant
                i <= n,
                n == self.products@.len(),
                self.products == old(self).products,
                self.graph == old(self).graph,
                self.index.wf(),
                forall|t: Seq<char>, x: ProductId|
                    #[trigger] self.index.name_list(t).contains(x) <==> (exists|j: int|
                        0 <= j < i && self.products@[j]@.id == x && name_matches(
                            self.products@[j]@,
                            t,
                        )),
                forall|t: Seq<char>, x: ProductId|
                    #[trigger] self.index.category_list(t).contains(x) <==> (exists|j: int|
                        0 <= j < i && self.products@[j]@.id == x && category_matches(
                            self.products@[j]@,
                            t,
                        )),
                forall|t: Seq<char>, x: ProductId|
                    #[trigger] self.index.tag_list(t).contains(x) <==> (exists|j: int|
                        0 <= j < i && self.products@[j]@.id == x && tag_matches(
                            self.products@[j]@,
                            t,
                        )),
            decreases n - i,
        {
            let ghost preidx = self.index;
            self.index.add_product(&self.products[i]);
            proof {
                let pv = self.products@[i as int]@;
                assert forall|t: Seq<char>, x: ProductId|
                    #[trigger] self.index.name_list(t).contains(x) <==> (exists|j: int|
                        0 <= j < i + 1 && self.products@[j]@.id == x && name_matches(
                            self.products@[j]@,
                            t,
                        )) by {
                    if self.index.name_list(t).contains(x) {
                        if preidx.name_list(t).contains(x) {
                            let j = choose|j: int|
                                0 <= j < i && self.products@[j]@.id == x && name_matches(
                                    self.products@[j]@,
                                    t,
                                );
                            assert(0 <= j < i + 1);
                        } else {
                            assert(x == pv.id && name_matches(pv, t));
                        }
                    }
                    if exists|j: int|
                        0 <= j < i + 1 && self.products@[j]@.id == x && name_matches(
                            self.products@[j]@,
                            t,
                        ) {
                        let j = choose|j: int|
                            0 <= j < i + 1 && self.products@[j]@.id == x && name_matches(
                                self.products@[j]@,
                                t,
                            );
                        if j < i {
                            assert(preidx.name_list(t).contains(x));
                        }
                    }
                }
                assert forall|t: Seq<char>, x: ProductId|
                    #[trigger] self.index.category_list(t).contains(x) <==> (exists|j: int|
                        0 <= j < i + 1 && self.products@[j]@.id == x && category_matches(
                            self.products@[j]@,
                            t,
                        )) by {
                    if self.index.category_list(t).contains(x) {
                        if preidx.category_list(t).contains(x) {
                            let j = choose|j: int|
                                0 <= j < i && self.products@[j]@.id == x && category_matches(
                                    self.products@[j]@,
                                    t,
                                );
                            assert(0 <= j < i + 1);
                        } else {
                            assert(x == pv.id && category_matches(pv, t));
                        }
                    }
                    if exists|j: int|
                        0 <= j < i + 1 && self.products@[j]@.id == x && category_matches(
                            self.products@[j]@,
                            t,
                        ) {
                        let j = choose|j: int|
                            0 <= j < i + 1 && self.products@[j]@.id == x && category_matches(
                                self.products@[j]@,
                                t,
                            );
                        if j < i {
                            assert(preidx.category_list(t).contains(x));
                        }
                    }
                }
                assert forall|t: Seq<char>, x: ProductId|
                    #[trigger] self.index.tag_list(t).contains(x) <==> (exists|j: int|
                        0 <= j < i + 1 && self.products@[j]@.id == x && tag_matches(
                            self.products@[j]@,
                            t,
                        )) by {
                    if self.index.tag_list(t).contains(x) {
                        if preidx.tag_list(t).contains(x) {
                            let j = choose|j: int|
                                0 <= j < i && self.products@[j]@.id == x && tag_matches(
                                    self.products@[j]@,
                                    t,
                                );
                            assert(0 <= j < i + 1);
                        } else {
                            assert(x == pv.id && tag_matches(pv, t));
                        }
                    }
                    if exists|j: int|
                        0 <= j < i + 1 && self.products@[j]@.id == x && tag_matches(
                            self.products@[j]@,
                            t,
                        ) {
                        let j = choose|j: int|
                            0 <= j < i + 1 && self.products@[j]@.id == x && tag_matches(
                                self.products@[j]@,
                                t,
                            );
                        if j < i {
                            assert(preidx.tag_list(t).contains(x));
                        }
                    }
                }
            }
            i = i + 1;
        }
        self.index.finalize();
    }

    /// Rebuild the relationship graph from the current snapshot, discarding
    /// any prior graph.
    pub fn build_graph(&mut self)
        requires
            old(self).wf(),
        ensures
            final(self).wf(),
            final(self).items() == old(self).items(),
            final(self).index() == old(self).index(),
            final(self).graph().node_ids().len() == final(self).items().len(),
            forall|i: int|
                0 <= i < final(self).items().len()
                    ==> final(self).graph().node_ids()[i] == final(self).items()[i]@.id,
            forall|x: int|
                0 <= x < final(self).items().len() ==> row_ok(
                    #[trigger] final(self).graph().neighbors(final(self).items()[x]@.id),
                    final(self).items(),
                    x,
                    final(self).items().len() as int,
                ),
            forall|a: ProductId, b: ProductId, w: u128|
                #[trigger] final(self).graph().neighbors(a).contains((b, w))
                    ==> final(self).graph().neighbors(b).contains((a, w)),
    {
        self.graph.build(&self.products);
    }

    /// Search the catalogue: the items whose relevance score for `query` is
    /// positive, best first (higher score, then smaller id), resolved from
    /// the current snapshot.
    #[verifier::rlimit(100)]
    pub fn search(&self, query: &str) -> (r: Vec<Product>)
        requires
            self.wf(),
        ensures
            forall|b: int| 0 <= b < r@.len() ==> #[trigger] resolved_from(r@[b]@, self.items()),
            forall|b: int|
                0 <= b < r@.len() ==> query_score(&self.index(), query@, #[trigger] r@[b]@.id) > 0,
            forall|b1: int, b2: int|
                0 <= b1 < b2 < r@.len() ==> (query_score(&self.index(), query@, r@[b1]@.id)
                    > query_score(&self.index(), query@, r@[b2]@.id) || (query_score(
                    &self.index(),
                    query@,
                    r@[b1]@.id,
                ) == query_score(&self.index(), query@, r@[b2]@.id) && r@[b1]@.id < r@[b2]@.id)),
            forall|x: ProductId|
                query_score(&self.index(), query@, x) > 0 && #[trigger] snap_has(self.items(), x)
                    ==> exists|b: int| 0 <= b < r@.len() && #[trigger] r@[b]@.id == x,
    {
        let engine = SearchEngine { index: &self.index };
        let ids = engine.search(query);
        let mut r: Vec<Product> = Vec::new();
        let mut i: usize = 0;
        while i < ids.len()
            invariant
                i <= ids@.len(),
                self.wf(),
                forall|x: ProductId|
                    #[trigger] ids@.contains(x) <==> query_score(&self.index, query@, x) > 0,
                forall|a1: int, a2: int|
                    0 <= a1 < a2 < ids@.len() ==> (query_score(&self.index, query@, ids@[a1])
                        > query_score(&self.index, query@, ids@[a2]) || (query_score(
                        &self.index,
                        query@,
                        ids@[a1],
                    ) == query_score(&self.index, query@, ids@[a2]) && ids@[a1] < ids@[a2])),
                forall|a1: int, a2: int| 0 <= a1 < a2 < ids@.len() ==> ids@[a1] != ids@[a2],
                forall|b: int|
                    0 <= b < r@.len() ==> exists|a: int|
                        0 <= a < i && #[trigger] ids@[a] == #[trigger] r@[b]@.id,
                forall|b: int|
                    0 <= b < r@.len() ==> #[trigger] resolved_from(r@[b]@, self.products@),
                forall|a: int|
                    0 <= a < i && snap_has(self.products@, #[trigger] ids@[a]) ==> exists|b: int|
                        0 <= b < r@.len() && #[trigger] r@[b]@.id == ids@[a],
                forall|b1: int, b2: int|
                    0 <= b1 < b2 < r@.len() ==> (query_score(&self.index, query@, r@[b1]@.id)
                        > query_score(&self.index, query@, r@[b2]@.id) || (query_score(
                        &self.index,
                        query@,
                        r@[b1]@.id,
                    ) == query_score(&self.index, query@, r@[b2]@.id) && r@[b1]@.id < r@[b2]@.id)),
            decreases ids@.len() - i,
        {
            let ghost prer = r@;
            let id = ids[i];
            let found = find_product(&self.products, id);
            let ghost pushed = found is Some;
            match found {
                Some(j) => {
                    let item = self.products[j].clone();
                    r.push(item);
                    proof {
                        assert(r@ =~= prer.push(r@[prer.len() as int]));
                        assert(r@[prer.len() as int]@ == self.products@[j as int]@);
                        assert(resolved_from(r@[prer.len() as int]@, self.products@));
                        assert(snap_has(self.products@, id)) by {
                            assert(self.products@[j as int]@.id == id);
                        }
                    }
                },
                None => {},
            }
            proof {
                assert(ids@[i as int] == id);
                assert forall|b: int| 0 <= b < r@.len() implies exists|a: int|
                    0 <= a < i + 1 && #[trigger] ids@[a] == #[trigger] r@[b]@.id by {
                    if b < prer.len() {
                        assert(r@[b] == prer[b]);
                        let a = choose|a: int| 0 <= a < i && ids@[a] == prer[b]@.id;
                        assert(0 <= a < i + 1 && ids@[a] == r@[b]@.id);
                    } else {
                        assert(ids@[i as int] == r@[b]@.id);
                    }
                }
                assert forall|b: int| 0 <= b < r@.len() implies #[trigger] resolved_from(
                    r@[b]@,
                    self.products@,
                ) by {
                    if b < prer.len() {
                        assert(r@[b] == prer[b]);
                        assert(resolved_from(prer[b]@, self.products@));
                    }
                }
                assert forall|a: int|
                    0 <= a < i + 1 && snap_has(self.products@, #[trigger] ids@[a]) implies exists|
                    b: int,
                |
                    0 <= b < r@.len() && #[trigger] r@[b]@.id == ids@[a] by {
                    if a < i {
                        let b = choose|b: int| 0 <= b < prer.len() && prer[b]@.id == ids@[a];
                        assert(r@[b]@.id == ids@[a]);
                    } else {
                        assert(r@[prer.len() as int]@.id == ids@[a]);
                    }
                }
                assert forall|b1: int, b2: int| 0 <= b1 < b2 < r@.len() implies (query_score(
                    &self.index,
                    query@,
                    r@[b1]@.id,
                ) > query_score(&self.index, query@, r@[b2]@.id) || (query_score(
                    &self.index,
                    query@,
                    r@[b1]@.id,
                ) == query_score(&self.index, query@, r@[b2]@.id) && r@[b1]@.id < r@[b2]@.id)) by {
                    if b2 == prer.len() && pushed {
                        assert(r@[b1] == prer[b1]);
                        let a = choose|a: int| 0 <= a < i && ids@[a] == prer[b1]@.id;
                        assert(r@[b2]@.id == ids@[i as int]);
                        assert(ids@[a] != ids@[i as int]);
                    } else {
                        assert(r@[b1] == prer[b1]);
                        assert(r@[b2] == prer[b2]);
                    }
                }
            }
            i = i + 1;
        }
        proof {
            assert forall|x: ProductId|
                query_score(&self.index, query@, x) > 0 && #[trigger] snap_has(
                    self.products@,
                    x,
                ) implies exists|b: int| 0 <= b < r@.len() && #[trigger] r@[b]@.id == x by {
                assert(ids@.contains(x));
                let a = choose|a: int| 0 <= a < ids@.len() && ids@[a] == x;
            }
            assert forall|b: int|
                0 <= b < r@.len() implies query_score(
                &self.index,
                query@,
                #[trigger] r@[b]@.id,
            ) > 0 by {
                let a = choose|a: int| 0 <= a < ids@.len() && ids@[a] == r@[b]@.id;
                assert(ids@.contains(r@[b]@.id));
            }
        }
        r
    }

    /// Recommend items related to `id`: the graph's top-`k` neighbors by
    /// weight, heavier first and ties broken by ascending id, resolved from
    /// the current snapshot (ids without a snapshot item are skipped).
    /// An unknown `id` yields an empty result. When every neighbor id is in
    /// the snapshot -- as after rebuilding the graph from it -- the result
    /// is exactly the top min(k, neighbor count), and every neighbor left
    /// out ranks at or below the last returned one.
    #[verifier::rlimit(100)]
    pub fn recommend(&self, id: ProductId, k: usize) -> (r: Vec<Product>)
        requires
            self.wf(),
        ensures
            r@.len() <= k,
            !self.graph().has_node(id) ==> r@.len() == 0,
            forall|b: int| 0 <= b < r@.len() ==> #[trigger] r@[b]@.id != id,
            forall|b: int| 0 <= b < r@.len() ==> #[trigger] resolved_from(r@[b]@, self.items()),
            forall|b: int|
                0 <= b < r@.len() ==> rank_has(self.graph().neighbors(id), #[trigger] r@[b]@.id)
                    && rank_of(self.graph().neighbors(id), r@[b]@.id) >= 1,
            forall|b1: int, b2: int|
                0 <= b1 < b2 < r@.len() ==> (rank_of(self.graph().neighbors(id), r@[b1]@.id)
                    > rank_of(self.graph().neighbors(id), r@[b2]@.id) || (rank_of(
                    self.graph().neighbors(id),
                    r@[b1]@.id,
                ) == rank_of(self.graph().neighbors(id), r@[b2]@.id) && r@[b1]@.id < r@[b2]@.id)),
            (self.graph().has_node(id) && (forall|nb: ProductId|
                #[trigger] rank_has(self.graph().neighbors(id), nb) ==> snap_has(
                    self.items(),
                    nb,
                ))) ==> r@.len() == (if k as int <= self.graph().neighbors(id).len() {
                k as int
            } else {
                self.graph().neighbors(id).len() as int
            }),
            (self.graph().has_node(id) && (forall|nb: ProductId|
                #[trigger] rank_has(self.graph().neighbors(id), nb) ==> snap_has(
                    self.items(),
                    nb,
                ))) ==> (forall|nb: ProductId|
                #[trigger] rank_has(self.graph().neighbors(id), nb) && !(exists|b: int|
                    0 <= b < r@.len() && #[trigger] r@[b]@.id == nb) ==> r@.len() == k as int && (
                r@.len() > 0 ==> (rank_of(self.graph().neighbors(id), nb) < rank_of(
                    self.graph().neighbors(id),
                    r@[r@.len() - 1]@.id,
                ) || (rank_of(self.graph().neighbors(id), nb) == rank_of(
                    self.graph().neighbors(id),
                    r@[r@.len() - 1]@.id,
                ) && nb > r@[r@.len() - 1]@.id)))),
    {
        let ids = self.graph.recommend(id, k);
        let ghost neigh = self.graph.neighbors(id);
        let ghost all_resident = forall|nb: ProductId|
            #[trigger] rank_has(neigh, nb) ==> snap_has(self.products@, nb);
        let mut r: Vec<Product> = Vec::new();
        let mut i: usize = 0;
        while i < ids.len()
            invariant
                i <= ids@.len(),
                ids@.len() <= k,
                self.wf(),
                neigh == self.graph.neighbors(id),
                all_resident == (forall|nb: ProductId|
                    #[trigger] rank_has(neigh, nb) ==> snap_has(self.products@, nb)),
                forall|a: int| 0 <= a < ids@.len() ==> #[trigger] ids@[a] != id,
                forall|a: int|
                    0 <= a < ids@.len() ==> rank_has(neigh, #[trigger] ids@[a]) && rank_of(
                        neigh,
                        ids@[a],
                    ) >= 1,
                forall|a1: int, a2: int|
                    0 <= a1 < a2 < ids@.len() ==> ids@[a1] != ids@[a2] && (rank_of(neigh, ids@[a1])
                        > rank_of(neigh, ids@[a2]) || (rank_of(neigh, ids@[a1]) == rank_of(
                        neigh,
                        ids@[a2],
                    ) && ids@[a1] < ids@[a2])),
                r@.len() <= i,
                all_resident ==> r@.len() == i as int,
                all_resident ==> (forall|b: int|
                    0 <= b < r@.len() ==> #[trigger] r@[b]@.id == ids@[b]),
                forall|b: int|
                    0 <= b < r@.len() ==> exists|a: int|
                        0 <= a < i && #[trigger] ids@[a] == #[trigger] r@[b]@.id,
                forall|b: int|
                    0 <= b < r@.len() ==> #[trigger] resolved_from(r@[b]@, self.products@),
                forall|b1: int, b2: int|
                    0 <= b1 < b2 < r@.len() ==> (rank_of(neigh, r@[b1]@.id) > rank_of(
                        neigh,
                        r@[b2]@.id,
                    ) || (rank_of(neigh, r@[b1]@.id) == rank_of(neigh, r@[b2]@.id) && r@[b1]@.id
                        < r@[b2]@.id)),
            decreases ids@.len() - i,
        {
            let ghost prer = r@;
            let pid = ids[i];
            let found = find_product(&self.products, pid);
            let ghost pushed = found is Some;
            match found {
                Some(j) => {
                    let item = self.products[j].clone();
                    r.push(item);
                    proof {
                        assert(r@ =~= prer.push(r@[prer.len() as int]));
                        assert(r@[prer.len() as int]@ == self.products@[j as int]@);
                        assert(resolved_from(r@[prer.len() as int]@, self.products@));
                    }
                },
                None => {},
            }
            proof {
                assert(ids@[i as int] == pid);
                assert(rank_has(neigh, ids@[i as int]));
                if all_resident {
                    assert(snap_has(self.products@, pid));
                    assert(pushed);
                    assert(r@.len() == i + 1);
                    assert forall|b: int| 0 <= b < r@.len() implies #[trigger] r@[b]@.id
                        == ids@[b] by {
                        if b < prer.len() {
                            assert(r@[b] == prer[b]);
                        }
                    }
                }
                assert forall|b: int| 0 <= b < r@.len() implies exists|a: int|
                    0 <= a < i + 1 && #[trigger] ids@[a] == #[trigger] r@[b]@.id by {
                    if b < prer.len() {
                        assert(r@[b] == prer[b]);
                        let a = choose|a: int| 0 <= a < i && ids@[a] == prer[b]@.id;
                        assert(0 <= a < i + 1 && ids@[a] == r@[b]@.id);
                    } else {
                        assert(ids@[i as int] == r@[b]@.id);
                    }
                }
                assert forall|b: int| 0 <= b < r@.len() implies #[trigger] resolved_from(
                    r@[b]@,
                    self.products@,
                ) by {
                    if b < prer.len() {
                        assert(r@[b] == prer[b]);
                        assert(resolved_from(prer[b]@, self.products@));
                    }
                }
                assert forall|b1: int, b2: int| 0 <= b1 < b2 < r@.len() implies (rank_of(
                    neigh,
                    r@[b1]@.id,
                ) > rank_of(neigh, r@[b2]@.id) || (rank_of(neigh, r@[b1]@.id) == rank_of(
                    neigh,
                    r@[b2]@.id,
                ) && r@[b1]@.id < r@[b2]@.id)) by {
                    if b2 == prer.len() && pushed {
                        assert(r@[b1] == prer[b1]);
                        let a = choose|a: int| 0 <= a < i && ids@[a] == prer[b1]@.id;
                        assert(r@[b2]@.id == ids@[i as int]);
                    } else {
                        assert(r@[b1] == prer[b1]);
                        assert(r@[b2] == prer[b2]);
                    }
                }
            }
            i = i + 1;
        }
        proof {
            assert forall|b: int| 0 <= b < r@.len() implies #[trigger] r@[b]@.id != id && rank_has(
                neigh,
                r@[b]@.id,
            ) && rank_of(neigh, r@[b]@.id) >= 1 by {
                let a = choose|a: int| 0 <= a < ids@.len() && ids@[a] == r@[b]@.id;
                assert(rank_has(neigh, ids@[a]) && rank_of(neigh, ids@[a]) >= 1);
                assert(ids@[a] != id);
            }
            if !self.graph.has_node(id) {
                assert(ids@.len() == 0);
                assert(r@.len() == 0);
            }
            if self.graph.has_node(id) && all_resident {
                assert(r@.len() == ids@.len());
                assert forall|nb: ProductId|
                    #[trigger] rank_has(neigh, nb) && !(exists|b: int|
                        0 <= b < r@.len() && #[trigger] r@[b]@.id == nb) implies r@.len()
                    == k as int && (r@.len() > 0 ==> (rank_of(neigh, nb) < rank_of(
                    neigh,
                    r@[r@.len() - 1]@.id,
                ) || (rank_of(neigh, nb) == rank_of(neigh, r@[r@.len() - 1]@.id) && nb > r@[r@.len()
                    - 1]@.id))) by {
                    assert(!ids@.contains(nb)) by {
                        if ids@.contains(nb) {
                            let a = choose|a: int| 0 <= a < ids@.len() && ids@[a] == nb;
                            assert(r@[a]@.id == nb);
                        }
                    }
                    assert(ids@.len() == k as int);
                    if r@.len() > 0 {
                        assert(r@[r@.len() - 1]@.id == ids@[ids@.len() - 1]);
                    }
                }
            }
        }
        r
    }
}

/// The position of the snapshot item with id `id`, when present.
fn find_product(v: &Vec<Product>, id: ProductId) -> (r: Option<usize>)
    ensures
        match r {
            Some(i) => i < v@.len() && v@[i as int]@.id == id,
            None => !snap_has(v@, id),
        },
{
    let mut i: usize = 0;
    while i < v.len()
        invariant
            i <= v@.len(),
            forall|j: int| 0 <= j < i ==> v@[j]@.id != id,
        decreases v@.len() - i,
    {
        if v[i].id == id {
            return Some(i);
        }
        i = i + 1;
    }
    proof {
        assert(!snap_has(v@, id)) by {
            if snap_has(v@, id) {
                let j = choose|j: int| 0 <= j < v@.len() && v@[j]@.id == id;
            }
        }
    }
    None
}

} // verus!
