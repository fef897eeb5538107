//! Top-k ranking of memory candidates by similarity score.
//!
//! Every comparable candidate (finite, and of the query's dimension) is
//! scored; the scored list is sorted descending by score with ties broken by
//! candidate order, and cut to the requested count. Candidates that cannot be
//! scored — the fixed-point carrier of an embedding that held a NaN, or a
//! vector of another dimension — are filtered out silently, exactly as an
//! undefined score would be.
use crate::similarity::{cos_fxp, cosine_similarity, Vector};
use vstd::prelude::*;

verus! {

/// A candidate takes part in ranking when both vectors are finite and share
/// a dimension; otherwise its score would be undefined.
pub open spec fn comparable(q: Vector, v: Vector) -> bool {
    q.finite && v.finite && q.dim() == v.dim()
}

/// The scored candidates in candidate order: each comparable candidate's key
/// paired with its fixed-point similarity to the query.
pub open spec fn scored(q: Vector, cands: Seq<(u64, Vector)>) -> Seq<(u64, i64)>
    decreases cands.len(),
{
    if cands.len() == 0 {
        Seq::empty()
    } else {
        let rest = scored(q, cands.drop_last());
        let c = cands.last();
        if comparable(q, c.1) {
            rest.push((c.0, cos_fxp(q.ints(), c.1.ints()) as i64))
        } else {
            rest
        }
    }
}

/// Insertion below every at-least-as-high score keeps earlier entries ahead
/// of later equals: the sort built from this is stable.
pub open spec fn insert_desc(x: (u64, i64), s: Seq<(u64, i64)>) -> Seq<(u64, i64)>
    decreases s.len(),
{
    if s.len() == 0 {
        seq![x]
    } else if s[0].1 >= x.1 {
        seq![s[0]] + insert_desc(x, s.skip(1))
    } else {
        seq![x] + s
    }
}

/// Stable descending sort by score.
pub open spec fn sort_desc(s: Seq<(u64, i64)>) -> Seq<(u64, i64)>
    decreases s.len(),
{
    if s.len() == 0 {
        s
    } else {
        insert_desc(s.last(), sort_desc(s.drop_last()))
    }
}

/// Scores never increase along the sequence.
pub open spec fn sorted_desc(s: Seq<(u64, i64)>) -> bool {
    forall|i: int, j: int| 0 <= i < j < s.len() ==> s[i].1 >= s[j].1
}

/// No two entries carry the same key.
pub open spec fn no_dup_keys(s: Seq<(u64, i64)>) -> bool {
    forall|i: int, j: int| 0 <= i < j < s.len() ==> s[i].0 != s[j].0
}

/// Some entry carries this key.
pub open spec fn has_key(s: Seq<(u64, i64)>, k: u64) -> bool {
    exists|i: int| 0 <= i < s.len() && s[i].0 == k
}

/// The keys of a ranked list, in order.
pub open spec fn keys_of(s: Seq<(u64, i64)>) -> Seq<u64> {
    s.map_values(|p: (u64, i64)| p.0)
}

/// Some candidate carries this key.
pub open spec fn cand_has_key(cands: Seq<(u64, Vector)>, k: u64) -> bool {
    exists|i: int| 0 <= i < cands.len() && cands[i].0 == k
}

/// The ranking result: the scored candidates, sorted descending by score
/// (stable), cut to at most `k` entries.
pub open spec fn top_k_spec(q: Vector, cands: Seq<(u64, Vector)>, k: int) -> Seq<(u64, i64)> {
    let srt = sort_desc(scored(q, cands));
    if k < srt.len() {
        srt.take(k)
    } else {
        srt
    }
}

proof fn lemma_insert_desc_props(x: (u64, i64), s: Seq<(u64, i64)>)
    ensures
        insert_desc(x, s).len() == s.len() + 1,
        forall|k: u64|
            #[trigger] has_key(insert_desc(x, s), k) <==> (k == x.0 || has_key(s, k)),
        forall|e: (u64, i64)|
            #[trigger] insert_desc(x, s).contains(e) <==> (e == x || s.contains(e)),
    decreases s.len(),
{
    if s.len() == 0 {
        assert forall|k: u64| #[trigger] has_key(insert_desc(x, s), k) implies (k == x.0
            || has_key(s, k)) by {
            let i = choose|i: int| 0 <= i < insert_desc(x, s).len() && insert_desc(x, s)[i].0 == k;
            assert(insert_desc(x, s)[i] == x);
        }
        assert(forall|k: u64| k == x.0 ==> #[trigger] has_key(insert_desc(x, s), k)) by {
            assert(insert_desc(x, s)[0] == x);
        }
    } else if s[0].1 >= x.1 {
        lemma_insert_desc_props(x, s.skip(1));
        let r = insert_desc(x, s);
        let rr = insert_desc(x, s.skip(1));
        assert(r == seq![s[0]] + rr);
        assert forall|k: u64| #[trigger] has_key(r, k) implies (k == x.0 || has_key(s, k)) by {
            let i = choose|i: int| 0 <= i < r.len() && r[i].0 == k;
            if i == 0 {
                assert(s[0].0 == k);
                assert(has_key(s, k));
            } else {
                assert(rr[i - 1].0 == k);
                assert(has_key(rr, k));
                if k != x.0 {
                    let j = choose|j: int| 0 <= j < s.skip(1).len() && s.skip(1)[j].0 == k;
                    assert(s[j + 1].0 == k);
                    assert(has_key(s, k));
                }
            }
        }
        assert forall|k: u64| (k == x.0 || has_key(s, k)) implies #[trigger] has_key(r, k) by {
            if k == x.0 {
                assert(has_key(rr, k));
                let j = choose|j: int| 0 <= j < rr.len() && rr[j].0 == k;
                assert(r[j + 1].0 == k);
            } else {
                let i = choose|i: int| 0 <= i < s.len() && s[i].0 == k;
                if i == 0 {
                    assert(r[0].0 == k);
                } else {
                    assert(s.skip(1)[i - 1].0 == k);
                    assert(has_key(s.skip(1), k));
                    assert(has_key(rr, k));
                    let j = choose|j: int| 0 <= j < rr.len() && rr[j].0 == k;
                    assert(r[j + 1].0 == k);
                }
            }
        }
        assert forall|e: (u64, i64)| #[trigger] r.contains(e) implies (e == x || s.contains(e)) by {
            let i = choose|i: int| 0 <= i < r.len() && r[i] == e;
            if i == 0 {
                assert(s[0] == e);
            } else {
                assert(rr.contains(e));
                if e != x {
                    let j = choose|j: int| 0 <= j < s.skip(1).len() && s.skip(1)[j] == e;
                    assert(s[j + 1] == e);
                }
            }
        }
        assert forall|e: (u64, i64)| (e == x || s.contains(e)) implies #[trigger] r.contains(e) by {
            if e == x {
                assert(rr.contains(e));
                let j = choose|j: int| 0 <= j < rr.len() && rr[j] == e;
                assert(r[j + 1] == e);
            } else {
                let i = choose|i: int| 0 <= i < s.len() && s[i] == e;
                if i == 0 {
                    assert(r[0] == e);
                } else {
                    assert(s.skip(1)[i - 1] == e);
                    assert(rr.contains(e));
                    let j = choose|j: int| 0 <= j < rr.len() && rr[j] == e;
                    assert(r[j + 1] == e);
                }
            }
        }
    } else {
        let r = insert_desc(x, s);
        assert(r == seq![x] + s);
        assert forall|k: u64| #[trigger] has_key(r, k) implies (k == x.0 || has_key(s, k)) by {
            let i = choose|i: int| 0 <= i < r.len() && r[i].0 == k;
            if i > 0 {
                assert(s[i - 1].0 == k);
            }
        }
        assert forall|k: u64| (k == x.0 || has_key(s, k)) implies #[trigger] has_key(r, k) by {
            if k == x.0 {
                assert(r[0].0 == k);
            } else {
                let i = choose|i: int| 0 <= i < s.len() && s[i].0 == k;
                assert(r[i + 1].0 == k);
            }
        }
        assert forall|e: (u64, i64)| #[trigger] r.contains(e) implies (e == x || s.contains(e)) by {
            let i = choose|i: int| 0 <= i < r.len() && r[i] == e;
            if i > 0 {
                assert(s[i - 1] == e);
            }
        }
        assert forall|e: (u64, i64)| (e == x || s.contains(e)) implies #[trigger] r.contains(e) by {
            if e == x {
                assert(r[0] == e);
            } else {
                let i = choose|i: int| 0 <= i < s.len() && s[i] == e;
                assert(r[i + 1] == e);
            }
        }
    }
}

proof fn lemma_insert_desc_sorted(x: (u64, i64), s: Seq<(u64, i64)>)
    requires
        sorted_desc(s),
    ensures
        sorted_desc(insert_desc(x, s)),
    decreases s.len(),
{
    if s.len() == 0 {
    } else if s[0].1 >= x.1 {
        assert(sorted_desc(s.skip(1)));
        lemma_insert_desc_sorted(x, s.skip(1));
        lemma_insert_desc_props(x, s.skip(1));
        let r = insert_desc(x, s);
        let rr = insert_desc(x, s.skip(1));
        assert forall|i: int, j: int| 0 <= i < j < r.len() implies r[i].1 >= r[j].1 by {
            if i == 0 {
                assert(rr.contains(r[j])) by {
                    assert(r[j] == rr[j - 1]);
                }
                if r[j] == x {
                    assert(r[0].1 >= r[j].1);
                } else {
                    assert(s.skip(1).contains(r[j]));
                    let m = choose|m: int| 0 <= m < s.skip(1).len() && s.skip(1)[m] == r[j];
                    assert(s[m + 1] == r[j]);
                    assert(s[0].1 >= s[m + 1].1);
                }
            } else {
                assert(r[i] == rr[i - 1] && r[j] == rr[j - 1]);
            }
        }
    } else {
        let r = insert_desc(x, s);
        assert forall|i: int, j: int| 0 <= i < j < r.len() implies r[i].1 >= r[j].1 by {
            if i == 0 {
                assert(r[j] == s[j - 1]);
                assert(s[0].1 >= s[j - 1].1);
            } else {
                assert(r[i] == s[i - 1] && r[j] == s[j - 1]);
            }
        }
    }
}

proof fn lemma_insert_desc_no_dup(x: (u64, i64), s: Seq<(u64, i64)>)
    requires
        no_dup_keys(s),
        !has_key(s, x.0),
    ensures
        no_dup_keys(insert_desc(x, s)),
    decreases s.len(),
{
    if s.len() == 0 {
    } else if s[0].1 >= x.1 {
        assert(no_dup_keys(s.skip(1))) by {
            assert(forall|i: int, j: int|
                0 <= i < j < s.skip(1).len() ==> s.skip(1)[i] == s[i + 1] && s.skip(1)[j] == s[j
                    + 1]);
        }
        assert(!has_key(s.skip(1), x.0)) by {
            if has_key(s.skip(1), x.0) {
                let i = choose|i: int| 0 <= i < s.skip(1).len() && s.skip(1)[i].0 == x.0;
                assert(s[i + 1].0 == x.0);
            }
        }
        lemma_insert_desc_no_dup(x, s.skip(1));
        lemma_insert_desc_props(x, s.skip(1));
        let r = insert_desc(x, s);
        let rr = insert_desc(x, s.skip(1));
        assert forall|i: int, j: int| 0 <= i < j < r.len() implies r[i].0 != r[j].0 by {
            if i == 0 {
                assert(r[j] == rr[j - 1]);
                if r[j].0 == s[0].0 {
                    assert(has_key(rr, s[0].0));
                    if s[0].0 == x.0 {
                        assert(has_key(s, x.0)) by {
                            assert(s[0].0 == x.0);
                        }
                    } else {
                        assert(has_key(s.skip(1), s[0].0));
                        let m = choose|m: int|
                            0 <= m < s.skip(1).len() && s.skip(1)[m].0 == s[0].0;
                        assert(s[m + 1].0 == s[0].0);
                    }
                }
            } else {
                assert(r[i] == rr[i - 1] && r[j] == rr[j - 1]);
            }
        }
    } else {
        let r = insert_desc(x, s);
        assert forall|i: int, j: int| 0 <= i < j < r.len() implies r[i].0 != r[j].0 by {
            if i == 0 {
                assert(r[j] == s[j - 1]);
                if r[0].0 == r[j].0 {
                    assert(has_key(s, x.0)) by {
                        assert(s[j - 1].0 == x.0);
                    }
                }
            } else {
                assert(r[i] == s[i - 1] && r[j] == s[j - 1]);
            }
        }
    }
}

proof fn lemma_sort_desc_props(s: Seq<(u64, i64)>)
    ensures
        sort_desc(s).len() == s.len(),
        sorted_desc(sort_desc(s)),
        forall|k: u64| #[trigger] has_key(sort_desc(s), k) <==> has_key(s, k),
        forall|e: (u64, i64)| #[trigger] sort_desc(s).contains(e) <==> s.contains(e),
        no_dup_keys(s) ==> no_dup_keys(sort_desc(s)),
    decreases s.len(),
{
    if s.len() == 0 {
    } else {
        let s1 = s.drop_last();
        let x = s.last();
        lemma_sort_desc_props(s1);
        lemma_insert_desc_props(x, sort_desc(s1));
        lemma_insert_desc_sorted(x, sort_desc(s1));
        let r = sort_desc(s);
        assert forall|k: u64| #[trigger] has_key(r, k) implies has_key(s, k) by {
            if k == x.0 {
                assert(s[s.len() - 1].0 == k);
            } else {
                assert(has_key(s1, k));
                let i = choose|i: int| 0 <= i < s1.len() && s1[i].0 == k;
                assert(s[i].0 == k);
            }
        }
        assert forall|k: u64| has_key(s, k) implies #[trigger] has_key(r, k) by {
            let i = choose|i: int| 0 <= i < s.len() && s[i].0 == k;
            if i == s.len() - 1 {
                assert(has_key(r, x.0));
            } else {
                assert(s1[i].0 == k);
                assert(has_key(s1, k));
            }
        }
        assert forall|e: (u64, i64)| #[trigger] r.contains(e) implies s.contains(e) by {
            if e == x {
                assert(s[s.len() - 1] == e);
            } else {
                assert(s1.contains(e));
                let i = choose|i: int| 0 <= i < s1.len() && s1[i] == e;
                assert(s[i] == e);
            }
        }
        assert forall|e: (u64, i64)| s.contains(e) implies #[trigger] r.contains(e) by {
            let i = choose|i: int| 0 <= i < s.len() && s[i] == e;
            if i == s.len() - 1 {
                assert(r.contains(x));
            } else {
                assert(s1[i] == e);
                assert(s1.contains(e));
            }
        }
        if no_dup_keys(s) {
            assert(no_dup_keys(s1)) by {
                assert(forall|i: int, j: int|
                    0 <= i < j < s1.len() ==> s1[i] == s[i] && s1[j] == s[j]);
            }
            assert(!has_key(s1, x.0)) by {
                if has_key(s1, x.0) {
                    let i = choose|i: int| 0 <= i < s1.len() && s1[i].0 == x.0;
                    assert(s[i].0 == s[s.len() - 1].0);
                }
            }
            assert(!has_key(sort_desc(s1), x.0));
            lemma_insert_desc_no_dup(x, sort_desc(s1));
        }
    }
}

/// Law: ranking returns every scored candidate when fewer than `k` are
/// comparable, and exactly `k` otherwise; the result is sorted descending by
/// score, repeats no key when the candidates repeat none, and contains only
/// candidate keys. An empty candidate set yields an empty result.
pub proof fn lemma_top_k_properties(q: Vector, cands: Seq<(u64, Vector)>, k: int)
    requires
        k >= 0,
    ensures
        scored(q, cands).len() < k ==> top_k_spec(q, cands, k).len() == scored(q, cands).len(),
        scored(q, cands).len() >= k ==> top_k_spec(q, cands, k).len() == k,
        sorted_desc(top_k_spec(q, cands, k)),
        no_dup_keys(scored(q, cands)) ==> no_dup_keys(top_k_spec(q, cands, k)),
        forall|key: u64| #[trigger] has_key(top_k_spec(q, cands, k), key) ==> cand_has_key(cands, key),
        cands.len() == 0 ==> top_k_spec(q, cands, k).len() == 0,
{
    let sc = scored(q, cands);
    let srt = sort_desc(sc);
    let r = top_k_spec(q, cands, k);
    lemma_sort_desc_props(sc);
    lemma_scored_keys(q, cands);
    assert(forall|i: int, j: int| 0 <= i < j < r.len() ==> r[i] == srt[i] && r[j] == srt[j]);
    assert forall|key: u64| #[trigger] has_key(r, key) implies cand_has_key(cands, key) by {
        let i = choose|i: int| 0 <= i < r.len() && r[i].0 == key;
        assert(srt[i].0 == key);
        assert(has_key(srt, key));
    }
}

/// Every key of the scored list is a candidate key.
proof fn lemma_scored_keys(q: Vector, cands: Seq<(u64, Vector)>)
    ensures
        forall|key: u64| #[trigger] has_key(scored(q, cands), key) ==> cand_has_key(cands, key),
    decreases cands.len(),
{
    if cands.len() == 0 {
    } else {
        let c1 = cands.drop_last();
        lemma_scored_keys(q, c1);
        let sc = scored(q, cands);
        let rest = scored(q, c1);
        assert forall|key: u64| #[trigger] has_key(sc, key) implies cand_has_key(cands, key) by {
            let i = choose|i: int| 0 <= i < sc.len() && sc[i].0 == key;
            if comparable(q, cands.last().1) && i == sc.len() - 1 {
                assert(cands[cands.len() - 1].0 == key);
            } else {
                assert(rest[i].0 == key);
                assert(has_key(rest, key));
                let j = choose|j: int| 0 <= j < c1.len() && c1[j].0 == key;
                assert(cands[j].0 == key);
            }
        }
    }
}

/// The scored list carries distinct keys whenever the candidates do.
pub proof fn lemma_scored_no_dup(q: Vector, cands: Seq<(u64, Vector)>)
    requires
        forall|i: int, j: int| 0 <= i < j < cands.len() ==> cands[i].0 != cands[j].0,
    ensures
        no_dup_keys(scored(q, cands)),
    decreases cands.len(),
{
    if cands.len() == 0 {
    } else {
        let c1 = cands.drop_last();
        assert(forall|i: int, j: int|
            0 <= i < j < c1.len() ==> c1[i] == cands[i] && c1[j] == cands[j]);
        lemma_scored_no_dup(q, c1);
        lemma_scored_keys(q, c1);
        let sc = scored(q, cands);
        let rest = scored(q, c1);
        if comparable(q, cands.last().1) {
            assert forall|i: int, j: int| 0 <= i < j < sc.len() implies sc[i].0 != sc[j].0 by {
                if j == sc.len() - 1 {
                    assert(sc[i] == rest[i]);
                    if sc[i].0 == cands.last().0 {
                        assert(has_key(rest, cands.last().0));
                        let m = choose|m: int| 0 <= m < c1.len() && c1[m].0 == cands.last().0;
                        assert(cands[m].0 == cands[cands.len() - 1].0);
                    }
                } else {
                    assert(sc[i] == rest[i] && sc[j] == rest[j]);
                }
            }
        }
    }
}

/// The `k` highest-scoring comparable candidates, best first.
///
/// Computes the similarity of the query against every candidate, drops
/// candidates without a defined score, sorts descending by score — stable, so
/// earlier candidates win ties — and returns at most `k` entries of key and
/// score. Fewer than `k` comparable candidates yield all of them; an empty
/// candidate set yields an empty result, never an error.
pub fn top_k(query: &Vector, candidates: &Vec<(u64, Vector)>, k: usize) -> (r: Vec<(u64, i64)>)
    requires
        query.wf(),
        forall|i: int| 0 <= i < candidates@.len() ==> (#[trigger] candidates@[i].1).wf(),
    ensures
        r@ == top_k_spec(*query, candidates@, k as int),
{
    let n = candidates.len();
    let mut scores: Vec<(u64, i64)> = Vec::new();
    let mut i: usize = 0;
    while i < n
        invariant
            0 <= i <= n,
            n == candidates@.len(),
            query.wf(),
            forall|j: int| 0 <= j < candidates@.len() ==> (#[trigger] candidates@[j].1).wf(),
            scores@ == scored(*query, candidates@.take(i as int)),
        decreases n - i,
    {
        let c = &candidates[i];
        proof {
            assert(candidates@.take(i + 1).drop_last() =~= candidates@.take(i as int));
            assert(candidates@.take(i + 1).last() == candidates@[i as int]);
        }
        if query.finite && c.1.finite && c.1.coords.len() == query.coords.len() {
            let s = cosine_similarity(query, &c.1);
            scores.push((c.0, s));
        }
        i = i + 1;
    }
    proof {
        assert(candidates@.take(n as int) =~= candidates@);
    }
    let mut sorted: Vec<(u64, i64)> = Vec::new();
    let m = scores.len();
    let mut i: usize = 0;
    while i < m
        invariant
            0 <= i <= m,
            m == scores@.len(),
            sorted@ == sort_desc(scores@.take(i as int)),
            sorted@.len() == i,
        decreases m - i,
    {
        let x = scores[i];
        let mut j: usize = 0;
        while j < sorted.len() && sorted[j].1 >= x.1
            invariant
                0 <= j <= sorted@.len(),
                forall|mm: int| 0 <= mm < j ==> sorted@[mm].1 >= x.1,
            decreases sorted@.len() - j,
        {
            j = j + 1;
        }
        proof {
            lemma_insert_desc_at(x, sorted@, j as int);
            assert(scores@.take(i + 1).drop_last() =~= scores@.take(i as int));
            assert(scores@.take(i + 1).last() == scores@[i as int]);
            assert(sorted@.insert(j as int, x) =~= sorted@.take(j as int) + seq![x]
                + sorted@.skip(j as int));
        }
        sorted.insert(j, x);
        i = i + 1;
    }
    proof {
        assert(scores@.take(m as int) =~= scores@);
        lemma_sort_desc_props(scores@);
    }
    if k < sorted.len() {
        sorted.truncate(k);
        proof {
            assert(sort_desc(scores@).subrange(0, k as int) =~= sort_desc(scores@).take(k as int));
        }
    }
    sorted
}

/// Positional insertion at the first place whose score is lower lands exactly
/// where `insert_desc` puts the entry.
proof fn lemma_insert_desc_at(x: (u64, i64), s: Seq<(u64, i64)>, j: int)
    requires
        0 <= j <= s.len(),
        forall|m: int| 0 <= m < j ==> s[m].1 >= x.1,
        j == s.len() || s[j].1 < x.1,
    ensures
        insert_desc(x, s) == s.take(j) + seq![x] + s.skip(j),
    decreases s.len(),
{
    if j == 0 {
        if s.len() == 0 {
            assert(insert_desc(x, s) =~= s.take(0) + seq![x] + s.skip(0));
        } else {
            assert(s[0].1 < x.1);
            assert(insert_desc(x, s) =~= s.take(0) + seq![x] + s.skip(0));
        }
    } else {
        assert(s[0].1 >= x.1);
        let s1 = s.skip(1);
        assert(forall|m: int| 0 <= m < j - 1 ==> s1[m] == s[m + 1]);
        if j < s.len() {
            assert(s1[j - 1] == s[j]);
        }
        lemma_insert_desc_at(x, s1, j - 1);
        assert(insert_desc(x, s) == seq![s[0]] + (s1.take(j - 1) + seq![x] + s1.skip(j - 1)));
        assert(seq![s[0]] + (s1.take(j - 1) + seq![x] + s1.skip(j - 1)) =~= s.take(j) + seq![x]
            + s.skip(j));
    }
}

} // verus!
