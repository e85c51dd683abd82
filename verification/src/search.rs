//! The search engine: a stateless scorer over a sealed inverted index.
//! Each query token contributes 3 to an item matched by name, 2 by
//! category and 1 by tag; items with total score 0 are excluded, the rest
//! come out with higher scores first and ties broken by ascending id.

use crate::indexer::{strictly_ascending, SearchIndex};
use crate::models::ProductId;
use crate::normalizer::{spec_tokenize, tokenize};
use crate::ranking::{
    ids_distinct, lemma_rank_at, lemma_rank_push, lemma_rank_same_entries, lemma_rank_update,
    lemma_take_step, rank_find, rank_has, rank_le, rank_of, ranked_ids, sort_ranked, vec_set,
    Ranked,
};
use vstd::prelude::*;

verus! {

/// The score one query token contributes to item `x`: 3 for a name match,
/// 2 for a category match, 1 for a tag match.
pub open spec fn token_score(idx: &SearchIndex, t: Seq<char>, x: ProductId) -> nat {
    (if idx.name_list(t).contains(x) {
        3nat
    } else {
        0nat
    }) + (if idx.category_list(t).contains(x) {
        2nat
    } else {
        0nat
    }) + (if idx.tag_list(t).contains(x) {
        1nat
    } else {
        0nat
    })
}

/// The total score of item `x` over a token sequence: the sum of the token
/// scores, counted once per token occurrence.
pub open spec fn total_score(idx: &SearchIndex, toks: Seq<Seq<char>>, x: ProductId) -> nat
    decreases toks.len(),
{
    if toks.len() == 0 {
        0
    } else {
        total_score(idx, toks.drop_last(), x) + token_score(idx, toks.last(), x)
    }
}

/// The relevance score of item `x` for query `q`: the total score over the
/// query's tokens.
pub open spec fn query_score(idx: &SearchIndex, q: Seq<char>, x: ProductId) -> nat {
    total_score(idx, spec_tokenize(q), x)
}

proof fn lemma_total_score_bound(idx: &SearchIndex, toks: Seq<Seq<char>>, x: ProductId)
    ensures
        total_score(idx, toks, x) <= 6 * toks.len(),
    decreases toks.len(),
{
    if toks.len() > 0 {
        lemma_total_score_bound(idx, toks.drop_last(), x);
    }
}

/// Add `w` to the rank of every id in `ids`, starting absent ids at `w`.
fn bump_all(scores: &mut Vec<Ranked>, ids: &Vec<ProductId>, w: u128)
    requires
        ids_distinct(old(scores)@),
        strictly_ascending(ids@),
        1 <= w,
        forall|x: ProductId| rank_of(old(scores)@, x) as int + w as int <= u128::MAX as int,
    ensures
        ids_distinct(final(scores)@),
        forall|x: ProductId|
            #[trigger] rank_of(final(scores)@, x) as int == rank_of(old(scores)@, x) as int + (
            if ids@.contains(x) {
                w as int
            } else {
                0int
            }),
        forall|x: ProductId|
            #[trigger] rank_has(final(scores)@, x) <==> (rank_has(old(scores)@, x)
                || ids@.contains(x)),
{
    let mut k: usize = 0;
    while k < ids.len()
        invariant
            k <= ids@.len(),
            ids_distinct(scores@),
            strictly_ascending(ids@),
            1 <= w,
            forall|x: ProductId| rank_of(old(scores)@, x) as int + w as int <= u128::MAX as int,
            forall|x: ProductId|
                #[trigger] rank_of(scores@, x) as int == rank_of(old(scores)@, x) as int + (
                if ids@.take(k as int).contains(x) {
                    w as int
                } else {
                    0int
                }),
            forall|x: ProductId|
                #[trigger] rank_has(scores@, x) <==> (rank_has(old(scores)@, x) || ids@.take(
                    k as int,
                ).contains(x)),
        decreases ids@.len() - k,
    {
        let y = ids[k];
        proof {
            assert(!ids@.take(k as int).contains(y)) by {
                if ids@.take(k as int).contains(y) {
                    let m = choose|m: int|
                        0 <= m < ids@.take(k as int).len() && #[trigger] ids@.take(k as int)[m]
                            == y;
                    assert(ids@[m] == y);
                    assert(ids@[m] < ids@[k as int]);
                }
            }
        }
        let found = rank_find(scores, y);
        match found {
            Some(i) => {
                let cur = scores[i];
                proof {
                    lemma_rank_at(scores@, i as int);
                }
                let ghost pre = scores@;
                let bumped = cur.1 + w;
                vec_set(scores, i, (y, bumped));
                proof {
                    lemma_rank_update(pre, i as int, (y, bumped));
                }
            },
            None => {
                let ghost pre = scores@;
                proof {
                    crate::ranking::lemma_rank_absent(pre, y);
                }
                scores.push((y, w));
                proof {
                    lemma_rank_push(pre, (y, w));
                }
            },
        }
        proof {
            lemma_take_step(ids@, k as int);
            assert forall|x: ProductId|
                #[trigger] rank_of(scores@, x) as int == rank_of(old(scores)@, x) as int + (
                if ids@.take(k + 1).contains(x) {
                    w as int
                } else {
                    0int
                }) by {
                if x == y {
                    assert(ids@.take(k + 1).contains(x));
                }
            }
            assert forall|x: ProductId|
                #[trigger] rank_has(scores@, x) <==> (rank_has(old(scores)@, x) || ids@.take(
                    k + 1,
                ).contains(x)) by {
                if x == y {
                    assert(ids@.take(k + 1).contains(x));
                }
            }
        }
        k = k + 1;
    }
    proof {
        assert(ids@.take(ids@.len() as int) =~= ids@);
    }
}

/// The stateless scorer; it borrows a sealed index.
pub struct SearchEngine<'a> {
    pub index: &'a SearchIndex,
}

impl<'a> SearchEngine<'a> {
    /// Rank item ids by relevance to `query`: the ids with positive score,
    /// higher scores first, ties broken by ascending id; no id twice.
    pub fn search(&self, query: &str) -> (r: Vec<ProductId>)
        requires
            self.index.wf(),
            self.index.sealed(),
        ensures
            forall|x: ProductId|
                #[trigger] r@.contains(x) <==> query_score(self.index, query@, x) > 0,
            forall|i: int, j: int|
                0 <= i < j < r@.len() ==> (query_score(self.index, query@, r@[i]) > query_score(
                    self.index,
                    query@,
                    r@[j],
                ) || (query_score(self.index, query@, r@[i]) == query_score(
                    self.index,
                    query@,
                    r@[j],
                ) && r@[i] < r@[j])),
            forall|i: int, j: int| 0 <= i < j < r@.len() ==> r@[i] != r@[j],
    {
        let toks = tokenize(query);
        let ghost tokviews = toks@.map_values(|t: String| t@);
        let mut scores: Vec<Ranked> = Vec::new();
        proof {
            assert(tokviews.take(0) =~= Seq::<Seq<char>>::empty());
        }
        let mut i: usize = 0;
        while i < toks.len()
            invariant
                i <= toks@.len(),
                tokviews == toks@.map_values(|t: String| t@),
                tokviews == spec_tokenize(query@),
                self.index.wf(),
                self.index.sealed(),
                ids_distinct(scores@),
                forall|x: ProductId|
                    #[trigger] rank_of(scores@, x) as int == total_score(
                        self.index,
                        tokviews.take(i as int),
                        x,
                    ),
                forall|x: ProductId|
                    #[trigger] rank_has(scores@, x) <==> total_score(
                        self.index,
                        tokviews.take(i as int),
                        x,
                    ) > 0,
            decreases toks@.len() - i,
        {
            let ghost tv = tokviews[i as int];
            let ghost s0 = scores@;
            proof {
                assert(toks@[i as int]@ == tv);
                assert forall|x: ProductId|
                    rank_of(s0, x) as int + 3 <= u128::MAX as int
                        && rank_of(s0, x) as int + 6 <= u128::MAX as int by {
                    lemma_total_score_bound(self.index, tokviews.take(i as int), x);
                }
            }
            let name_ids = self.index.name_ids(toks[i].as_str());
            match name_ids {
                Some(ids) => {
                    bump_all(&mut scores, ids, 3);
                },
                None => {
                    proof {
                        assert(forall|x: ProductId| !self.index.name_list(tv).contains(x));
                    }
                },
            }
            proof {
                assert(forall|x: ProductId|
                    #[trigger] rank_of(scores@, x) as int == rank_of(s0, x) as int + (
                    if self.index.name_list(tv).contains(x) {
                        3int
                    } else {
                        0int
                    }));
                assert(forall|x: ProductId|
                    #[trigger] rank_has(scores@, x) <==> (rank_has(s0, x)
                        || self.index.name_list(tv).contains(x)));
            }
            let ghost s1 = scores@;
            let cat_ids = self.index.category_ids(toks[i].as_str());
            match cat_ids {
                Some(ids) => {
                    bump_all(&mut scores, ids, 2);
                },
                None => {
                    proof {
                        assert(forall|x: ProductId| !self.index.category_list(tv).contains(x));
                    }
                },
            }
            proof {
                assert(forall|x: ProductId|
                    #[trigger] rank_of(scores@, x) as int == rank_of(s1, x) as int + (
                    if self.index.category_list(tv).contains(x) {
                        2int
                    } else {
                        0int
                    }));
                assert(forall|x: ProductId|
                    #[trigger] rank_has(scores@, x) <==> (rank_has(s1, x)
                        || self.index.category_list(tv).contains(x)));
            }
            let ghost s2 = scores@;
            let tag_ids = self.index.tag_ids(toks[i].as_str());
            match tag_ids {
                Some(ids) => {
                    bump_all(&mut scores, ids, 1);
                },
                None => {
                    proof {
                        assert(forall|x: ProductId| !self.index.tag_list(tv).contains(x));
                    }
                },
            }
            proof {
                assert(forall|x: ProductId|
                    #[trigger] rank_of(scores@, x) as int == rank_of(s2, x) as int + (
                    if self.index.tag_list(tv).contains(x) {
                        1int
                    } else {
                        0int
                    }));
                assert(forall|x: ProductId|
                    #[trigger] rank_has(scores@, x) <==> (rank_has(s2, x)
                        || self.index.tag_list(tv).contains(x)));
                assert(tokviews.take(i + 1).drop_last() =~= tokviews.take(i as int));
                assert(tokviews.take(i + 1).last() == tv);
                assert forall|x: ProductId|
                    #[trigger] rank_of(scores@, x) as int == total_score(
                        self.index,
                        tokviews.take(i + 1),
                        x,
                    ) && (rank_has(scores@, x) <==> total_score(
                        self.index,
                        tokviews.take(i + 1),
                        x,
                    ) > 0) by {
                    assert(total_score(self.index, tokviews.take(i + 1), x) == total_score(
                        self.index,
                        tokviews.take(i as int),
                        x,
                    ) + token_score(self.index, tv, x));
                }
            }
            i = i + 1;
        }
        proof {
            assert(tokviews.take(tokviews.len() as int) =~= tokviews);
        }
        let ghost presort = scores@;
        sort_ranked(&mut scores);
        proof {
            lemma_rank_same_entries(presort, scores@);
        }
        let ghost sorted = scores@;
        let r = ranked_ids(&scores);
        proof {
            assert forall|x: ProductId|
                #[trigger] r@.contains(x) <==> query_score(self.index, query@, x) > 0 by {
                assert(rank_has(presort, x) <==> rank_has(sorted, x));
                if r@.contains(x) {
                    let j = choose|j: int| 0 <= j < r@.len() && r@[j] == x;
                    assert(r@[j] == sorted[j].0);
                    assert(rank_has(sorted, x));
                }
                if query_score(self.index, query@, x) > 0 {
                    assert(rank_has(presort, x));
                    assert(rank_has(sorted, x));
                    let j = choose|j: int| 0 <= j < sorted.len() && sorted[j].0 == x;
                    assert(r@[j] == x);
                    assert(r@.contains(x));
                }
            }
            assert forall|i2: int, j2: int| 0 <= i2 < j2 < r@.len() implies (query_score(
                self.index,
                query@,
                r@[i2],
            ) > query_score(self.index, query@, r@[j2]) || (query_score(self.index, query@, r@[i2])
                == query_score(self.index, query@, r@[j2]) && r@[i2] < r@[j2])) && r@[i2]
                != r@[j2] by {
                assert(rank_le(sorted[i2], sorted[j2]));
                assert(sorted[i2].0 != sorted[j2].0);
                lemma_rank_at(sorted, i2);
                lemma_rank_at(sorted, j2);
                assert(r@[i2] == sorted[i2].0);
                assert(r@[j2] == sorted[j2].0);
                assert(rank_of(presort, r@[i2]) as int == query_score(
                    self.index,
                    query@,
                    r@[i2],
                ) as int);
                assert(rank_of(presort, r@[j2]) as int == query_score(
                    self.index,
                    query@,
                    r@[j2],
                ) as int);
                assert(rank_of(sorted, r@[i2]) == sorted[i2].1);
                assert(rank_of(sorted, r@[j2]) == sorted[j2].1);
            }
        }
        r
    }
}

} // verus!
