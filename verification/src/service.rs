//! The collection service: one identity map + document store + inverted
//! index triple, with ingest, update, delete, clear and search built on
//! them.
//!
//! The service's invariant ties the index to the store: for every lexeme
//! and internal id, the number of postings equals the number of times the
//! lexeme occurs among the lexemes of the live record with that id — so
//! every posting refers to a live document, and scores computed from the
//! index are exactly term-match counts against document text.

use vstd::prelude::*;

use crate::analyzer::{views_of, AnalyzerConfig};
use crate::document::{
    create_storage_scene, input_lexemes, input_texts, lemma_list_texts_empty,
    lemma_texts_lexemes_concat, list_texts, stored_of, texts_lexemes, Aliasable, InputScene,
    InputSceneView, StoredScene,
};
use crate::index::{
    add_all, count_ids, index_wf, lemma_add_all_sem, lemma_plist_absent, lemma_retract_sem,
    occ_tok, pcount, plist, retract_all, tokens_of, total_postings, IndexView, InvertedIndex,
};
use crate::params::EngineError;
use crate::pipeline::{
    cand_views, cands_ok, filter_cands, filter_pairs, page_of, paginate, reverse_pairs,
    sort_pairs, sort_spec, Order, ScoredRec, SearchFilters, SearchFiltersView, SortKey,
};
use crate::store::{
    has_ext, has_iid, pos_of_ext, pos_of_iid, remove_ext, resolve_spec, store_wf, RecordView,
    Store,
};
use crate::text::str_views;

verus! {

/// How many times lexeme `t` occurs among the lexemes of the live record
/// with internal id `i`; zero when no record carries `i`.
pub open spec fn rec_occ(rs: Seq<RecordView>, t: Seq<char>, i: u64) -> nat
    decreases rs.len(),
{
    if rs.len() == 0 {
        0
    } else if rs.last().internal_id == i {
        occ_tok(rs.last().lex, t)
    } else {
        rec_occ(rs.drop_last(), t, i)
    }
}

/// The coherence invariant between an index and a record list.
pub open spec fn coherent(idx: IndexView, rs: Seq<RecordView>) -> bool {
    forall|t: Seq<char>, i: u64| #[trigger] pcount(idx, t, i) == rec_occ(rs, t, i)
}

pub proof fn lemma_rec_occ_absent(rs: Seq<RecordView>, t: Seq<char>, i: u64)
    requires
        forall|k: int| 0 <= k < rs.len() ==> (#[trigger] rs[k]).internal_id != i,
    ensures
        rec_occ(rs, t, i) == 0,
    decreases rs.len(),
{
    if rs.len() > 0 {
        assert(rs[rs.len() - 1].internal_id != i);
        assert(forall|k: int|
            0 <= k < rs.drop_last().len() ==> #[trigger] rs.drop_last()[k] == rs[k]);
        lemma_rec_occ_absent(rs.drop_last(), t, i);
    }
}

pub proof fn lemma_rec_occ_at(rs: Seq<RecordView>, t: Seq<char>, i: u64, k: int)
    requires
        0 <= k < rs.len(),
        rs[k].internal_id == i,
        forall|j: int| 0 <= j < rs.len() && j != k ==> (#[trigger] rs[j]).internal_id != i,
    ensures
        rec_occ(rs, t, i) == occ_tok(rs[k].lex, t),
    decreases rs.len(),
{
    if k == rs.len() - 1 {
        assert(rs.last() == rs[k]);
    } else {
        assert(rs[rs.len() - 1].internal_id != i);
        assert(forall|k2: int|
            0 <= k2 < rs.drop_last().len() ==> #[trigger] rs.drop_last()[k2] == rs[k2]);
        lemma_rec_occ_at(rs.drop_last(), t, i, k);
    }
}

/// Internal ids are unique in a well-formed store.
pub proof fn lemma_wf_unique_iids(rs: Seq<RecordView>, next: u64)
    requires
        store_wf(rs, next),
    ensures
        forall|k: int, l: int|
            0 <= k < rs.len() && 0 <= l < rs.len() && k != l ==> (#[trigger] rs[k]).internal_id != (
            #[trigger] rs[l]).internal_id,
{
    assert forall|k: int, l: int|
        0 <= k < rs.len() && 0 <= l < rs.len() && k != l implies (#[trigger] rs[k]).internal_id
        != (#[trigger] rs[l]).internal_id by {
        if k < l {
            assert(rs[k].internal_id < rs[l].internal_id);
        } else {
            assert(rs[l].internal_id < rs[k].internal_id);
        }
    }
}

/// What removing one external id's record means for every occurrence
/// count.
pub proof fn lemma_rec_occ_remove_ext(
    rs: Seq<RecordView>,
    e: Seq<char>,
    next: u64,
    t: Seq<char>,
    x: u64,
)
    requires
        store_wf(rs, next),
    ensures
        rec_occ(remove_ext(rs, e), t, x) == if has_ext(rs, e) && x == rs[pos_of_ext(
            rs,
            e,
        )].internal_id {
            0nat
        } else {
            rec_occ(rs, t, x)
        },
{
    crate::store::lemma_pos_of_ext(rs, e);
    lemma_wf_unique_iids(rs, next);
    if !has_ext(rs, e) {
    } else {
        let p = pos_of_ext(rs, e);
        let ix = rs[p].internal_id;
        let new = rs.remove(p);
        assert(forall|j: int| 0 <= j < p ==> #[trigger] new[j] == rs[j]);
        assert(forall|j: int| p <= j < new.len() ==> #[trigger] new[j] == rs[j + 1]);
        if x == ix {
            assert forall|j: int| 0 <= j < new.len() implies (#[trigger] new[j]).internal_id
                != x by {
                if j < p {
                    assert(new[j] == rs[j]);
                } else {
                    assert(new[j] == rs[j + 1]);
                }
            }
            lemma_rec_occ_absent(new, t, x);
        } else {
            if has_iid(rs, x) {
                let k = choose|k: int| 0 <= k < rs.len() && (#[trigger] rs[k]).internal_id == x;
                assert(k != p);
                lemma_rec_occ_at(rs, t, x, k);
                let k2: int = if k < p {
                    k
                } else {
                    k - 1
                };
                assert(new[k2] == rs[k]);
                assert forall|j: int|
                    0 <= j < new.len() && j != k2 implies (#[trigger] new[j]).internal_id != x by {
                    if j < p {
                        assert(new[j] == rs[j]);
                    } else {
                        assert(new[j] == rs[j + 1]);
                    }
                }
                lemma_rec_occ_at(new, t, x, k2);
            } else {
                assert forall|j: int| 0 <= j < rs.len() implies (#[trigger] rs[j]).internal_id
                    != x by {
                    if rs[j].internal_id == x {
                        assert(has_iid(rs, x));
                    }
                }
                assert forall|j: int| 0 <= j < new.len() implies (#[trigger] new[j]).internal_id
                    != x by {
                    if j < p {
                        assert(new[j] == rs[j]);
                    } else {
                        assert(new[j] == rs[j + 1]);
                    }
                }
                lemma_rec_occ_absent(rs, t, x);
                lemma_rec_occ_absent(new, t, x);
            }
        }
    }
}

/// What overwriting one record in place means for every occurrence count.
pub proof fn lemma_rec_occ_update(
    rs: Seq<RecordView>,
    p: int,
    r2: RecordView,
    next: u64,
    t: Seq<char>,
    x: u64,
)
    requires
        store_wf(rs, next),
        0 <= p < rs.len(),
        rs[p].internal_id == r2.internal_id,
    ensures
        rec_occ(rs.update(p, r2), t, x) == if x == r2.internal_id {
            occ_tok(r2.lex, t)
        } else {
            rec_occ(rs, t, x)
        },
{
    lemma_wf_unique_iids(rs, next);
    let new = rs.update(p, r2);
    assert(forall|j: int| 0 <= j < rs.len() && j != p ==> #[trigger] new[j] == rs[j]);
    assert(new[p] == r2);
    if x == r2.internal_id {
        assert forall|j: int|
            0 <= j < new.len() && j != p implies (#[trigger] new[j]).internal_id != x by {
            assert(new[j] == rs[j]);
        }
        lemma_rec_occ_at(new, t, x, p);
    } else {
        if has_iid(rs, x) {
            let k = choose|k: int| 0 <= k < rs.len() && (#[trigger] rs[k]).internal_id == x;
            assert(k != p);
            lemma_rec_occ_at(rs, t, x, k);
            assert forall|j: int|
                0 <= j < new.len() && j != k implies (#[trigger] new[j]).internal_id != x by {
                if j != p {
                    assert(new[j] == rs[j]);
                }
            }
            lemma_rec_occ_at(new, t, x, k);
        } else {
            assert forall|j: int| 0 <= j < rs.len() implies (#[trigger] rs[j]).internal_id
                != x by {
                if rs[j].internal_id == x {
                    assert(has_iid(rs, x));
                }
            }
            lemma_rec_occ_absent(rs, t, x);
            assert forall|j: int| 0 <= j < new.len() implies (#[trigger] new[j]).internal_id
                != x by {
                if j != p {
                    assert(new[j] == rs[j]);
                }
            }
            lemma_rec_occ_absent(new, t, x);
        }
    }
}

/// The views of a batch of input documents.
pub open spec fn input_views(v: Seq<InputScene>) -> Seq<InputSceneView> {
    v.map_values(|d: InputScene| d@)
}

/// One document ingested: any live record with the same external id is
/// removed, and a new record is appended under the next internal id.
pub open spec fn ingest_one_recs(
    rs: Seq<RecordView>,
    next: u64,
    d: InputSceneView,
    cfg: AnalyzerConfig,
) -> Seq<RecordView> {
    remove_ext(rs, d.id).push(
        (RecordView { doc: stored_of(d), internal_id: next, lex: input_lexemes(d, cfg) }),
    )
}

/// A batch ingested in order: the record list and counter after each
/// document of `ds` has been ingested.
pub open spec fn ingest_seq(
    rs: Seq<RecordView>,
    next: u64,
    ds: Seq<InputSceneView>,
    cfg: AnalyzerConfig,
) -> (Seq<RecordView>, u64)
    decreases ds.len(),
{
    if ds.len() == 0 {
        (rs, next)
    } else {
        ingest_seq(ingest_one_recs(rs, next, ds[0], cfg), (next + 1) as u64, ds.drop_first(), cfg)
    }
}

pub proof fn lemma_ingest_seq_snoc(
    rs: Seq<RecordView>,
    next: u64,
    ds: Seq<InputSceneView>,
    d: InputSceneView,
    cfg: AnalyzerConfig,
)
    ensures
        ingest_seq(rs, next, ds.push(d), cfg) == ({
            let mid = ingest_seq(rs, next, ds, cfg);
            (ingest_one_recs(mid.0, mid.1, d, cfg), (mid.1 + 1) as u64)
        }),
    decreases ds.len(),
{
    if ds.len() == 0 {
        assert(ds.push(d)[0] == d);
        assert(ds.push(d).drop_first() =~= Seq::<InputSceneView>::empty());
        assert(ingest_seq(rs, next, ds.push(d), cfg) == ingest_seq(
            ingest_one_recs(rs, next, d, cfg),
            (next + 1) as u64,
            ds.push(d).drop_first(),
            cfg,
        ));
        assert(ingest_seq(
            ingest_one_recs(rs, next, d, cfg),
            (next + 1) as u64,
            Seq::<InputSceneView>::empty(),
            cfg,
        ) == ((ingest_one_recs(rs, next, d, cfg), (next + 1) as u64)));
        assert(ingest_seq(rs, next, ds, cfg) == ((rs, next)));
    } else {
        assert(ds.push(d)[0] == ds[0]);
        assert(ds.push(d).drop_first() =~= ds.drop_first().push(d));
        lemma_ingest_seq_snoc(
            ingest_one_recs(rs, next, ds[0], cfg),
            (next + 1) as u64,
            ds.drop_first(),
            d,
            cfg,
        );
        assert(ingest_seq(rs, next, ds.push(d), cfg) == ingest_seq(
            ingest_one_recs(rs, next, ds[0], cfg),
            (next + 1) as u64,
            ds.drop_first().push(d),
            cfg,
        ));
        assert(ingest_seq(rs, next, ds, cfg) == ingest_seq(
            ingest_one_recs(rs, next, ds[0], cfg),
            (next + 1) as u64,
            ds.drop_first(),
            cfg,
        ));
    }
}

/// What one ingested document does to the index: the postings of any
/// replaced record are retracted, then every lexeme of the document is
/// registered against the fresh internal id.
pub open spec fn ingest_step_idx(
    idx: IndexView,
    rs: Seq<RecordView>,
    next: u64,
    d: InputSceneView,
    cfg: AnalyzerConfig,
) -> IndexView {
    let idx1 = match resolve_spec(rs, d.id) {
        Some(i) => retract_all(idx, i),
        None => idx,
    };
    add_all(idx1, input_lexemes(d, cfg), next)
}

/// A batch ingested in order: record list, counter and index after each
/// document of `ds` has been ingested.
pub open spec fn ingest_full(
    rs: Seq<RecordView>,
    next: u64,
    idx: IndexView,
    ds: Seq<InputSceneView>,
    cfg: AnalyzerConfig,
) -> (Seq<RecordView>, u64, IndexView)
    decreases ds.len(),
{
    if ds.len() == 0 {
        (rs, next, idx)
    } else {
        ingest_full(
            ingest_one_recs(rs, next, ds[0], cfg),
            (next + 1) as u64,
            ingest_step_idx(idx, rs, next, ds[0], cfg),
            ds.drop_first(),
            cfg,
        )
    }
}

pub proof fn lemma_ingest_full_snoc(
    rs: Seq<RecordView>,
    next: u64,
    idx: IndexView,
    ds: Seq<InputSceneView>,
    d: InputSceneView,
    cfg: AnalyzerConfig,
)
    ensures
        ingest_full(rs, next, idx, ds.push(d), cfg) == ({
            let mid = ingest_full(rs, next, idx, ds, cfg);
            (
                ingest_one_recs(mid.0, mid.1, d, cfg),
                (mid.1 + 1) as u64,
                ingest_step_idx(mid.2, mid.0, mid.1, d, cfg),
            )
        }),
    decreases ds.len(),
{
    if ds.len() == 0 {
        assert(ds.push(d)[0] == d);
        assert(ds.push(d).drop_first() =~= Seq::<InputSceneView>::empty());
        assert(ingest_full(rs, next, idx, ds.push(d), cfg) == ingest_full(
            ingest_one_recs(rs, next, d, cfg),
            (next + 1) as u64,
            ingest_step_idx(idx, rs, next, d, cfg),
            ds.push(d).drop_first(),
            cfg,
        ));
        assert(ingest_full(
            ingest_one_recs(rs, next, d, cfg),
            (next + 1) as u64,
            ingest_step_idx(idx, rs, next, d, cfg),
            Seq::<InputSceneView>::empty(),
            cfg,
        ) == ((
            ingest_one_recs(rs, next, d, cfg),
            (next + 1) as u64,
            ingest_step_idx(idx, rs, next, d, cfg),
        )));
        assert(ingest_full(rs, next, idx, ds, cfg) == ((rs, next, idx)));
    } else {
        assert(ds.push(d)[0] == ds[0]);
        assert(ds.push(d).drop_first() =~= ds.drop_first().push(d));
        lemma_ingest_full_snoc(
            ingest_one_recs(rs, next, ds[0], cfg),
            (next + 1) as u64,
            ingest_step_idx(idx, rs, next, ds[0], cfg),
            ds.drop_first(),
            d,
            cfg,
        );
        assert(ingest_full(rs, next, idx, ds.push(d), cfg) == ingest_full(
            ingest_one_recs(rs, next, ds[0], cfg),
            (next + 1) as u64,
            ingest_step_idx(idx, rs, next, ds[0], cfg),
            ds.drop_first().push(d),
            cfg,
        ));
        assert(ingest_full(rs, next, idx, ds, cfg) == ingest_full(
            ingest_one_recs(rs, next, ds[0], cfg),
            (next + 1) as u64,
            ingest_step_idx(idx, rs, next, ds[0], cfg),
            ds.drop_first(),
            cfg,
        ));
    }
}

/// The record list and counter of a full ingest agree with
/// [`ingest_seq`], whatever the index was.
pub proof fn lemma_ingest_full_seq(
    rs: Seq<RecordView>,
    next: u64,
    idx: IndexView,
    ds: Seq<InputSceneView>,
    cfg: AnalyzerConfig,
)
    ensures
        (ingest_full(rs, next, idx, ds, cfg).0, ingest_full(rs, next, idx, ds, cfg).1)
            == ingest_seq(rs, next, ds, cfg),
    decreases ds.len(),
{
    if ds.len() > 0 {
        lemma_ingest_full_seq(
            ingest_one_recs(rs, next, ds[0], cfg),
            (next + 1) as u64,
            ingest_step_idx(idx, rs, next, ds[0], cfg),
            ds.drop_first(),
            cfg,
        );
    }
}

/// Ingesting one document preserves the index invariant and coherence.
pub proof fn lemma_ingest_step_coherent(
    idx0: IndexView,
    rs0: Seq<RecordView>,
    next: u64,
    d: InputSceneView,
    cfg: AnalyzerConfig,
)
    requires
        store_wf(rs0, next),
        index_wf(idx0),
        coherent(idx0, rs0),
        next < u64::MAX,
    ensures
        ({
            let idx1 = match resolve_spec(rs0, d.id) {
                Some(i) => retract_all(idx0, i),
                None => idx0,
            };
            let idx2 = add_all(idx1, input_lexemes(d, cfg), next);
            index_wf(idx2) && coherent(idx2, ingest_one_recs(rs0, next, d, cfg))
        }),
{
    let e = d.id;
    let idx1 = match resolve_spec(rs0, e) {
        Some(i) => retract_all(idx0, i),
        None => idx0,
    };
    let ls = input_lexemes(d, cfg);
    let idx2 = add_all(idx1, ls, next);
    let rs1 = remove_ext(rs0, e);
    let newrec = RecordView { doc: stored_of(d), internal_id: next, lex: ls };
    let rs2 = ingest_one_recs(rs0, next, d, cfg);
    crate::store::lemma_pos_of_ext(rs0, e);
    crate::store::lemma_remove_ext_wf(rs0, e, next);
    assert(index_wf(idx1)) by {
        match resolve_spec(rs0, e) {
            Some(i) => {
                lemma_retract_sem(idx0, i);
            },
            None => {},
        }
    }
    assert(coherent(idx1, rs1)) by {
        assert forall|t: Seq<char>, x: u64| #[trigger] pcount(idx1, t, x) == rec_occ(
            rs1,
            t,
            x,
        ) by {
            lemma_rec_occ_remove_ext(rs0, e, next, t, x);
            match resolve_spec(rs0, e) {
                Some(i) => {
                    lemma_retract_sem(idx0, i);
                    assert(i == rs0[pos_of_ext(rs0, e)].internal_id);
                },
                None => {},
            }
        }
    }
    lemma_add_all_sem(idx1, ls, next);
    assert(coherent(idx2, rs2)) by {
        assert forall|t: Seq<char>, x: u64| #[trigger] pcount(idx2, t, x) == rec_occ(
            rs2,
            t,
            x,
        ) by {
            assert(rs2.last() == newrec);
            assert(rs2.drop_last() =~= rs1);
            if x == next {
                assert(forall|j: int|
                    0 <= j < rs1.len() ==> (#[trigger] rs1[j]).internal_id != next);
                lemma_rec_occ_absent(rs1, t, next);
                assert(pcount(idx1, t, next) == 0);
                assert(pcount(idx2, t, x) == occ_tok(ls, t));
                assert(rec_occ(rs2, t, x) == occ_tok(newrec.lex, t));
            } else {
                assert(pcount(idx2, t, x) == pcount(idx1, t, x));
                assert(rec_occ(rs2, t, x) == rec_occ(rs1, t, x));
            }
        }
    }
}

/// The relevance score of a document against a query: one point for every
/// occurrence of every query lexeme among the document's lexemes, so
/// repeated matches compound.
pub open spec fn query_score(qlex: Seq<Seq<char>>, lex: Seq<Seq<char>>) -> nat
    decreases qlex.len(),
{
    if qlex.len() == 0 {
        0
    } else {
        query_score(qlex.drop_last(), lex) + occ_tok(lex, qlex.last())
    }
}

/// Every record paired with its score, in store (insertion) order.
pub open spec fn score_pairs_of(rs: Seq<RecordView>, qlex: Seq<Seq<char>>) -> Seq<ScoredRec> {
    rs.map_values(|r: RecordView| (query_score(qlex, r.lex), r))
}

/// The scored pairs with a nonzero score: a document matching none of the
/// query's lexemes is excluded entirely, never scored as zero.
pub open spec fn positive(cs: Seq<ScoredRec>) -> Seq<ScoredRec> {
    cs.filter(|p: ScoredRec| p.0 > 0)
}

/// One step of [`positive`], for loop proofs.
pub proof fn lemma_positive_step(cs: Seq<ScoredRec>)
    requires
        cs.len() > 0,
    ensures
        positive(cs) == if cs.last().0 > 0 {
            positive(cs.drop_last()).push(cs.last())
        } else {
            positive(cs.drop_last())
        },
{
    reveal_with_fuel(Seq::<_>::filter, 2);
}

/// Stage one of the pipeline: the candidate set. An empty query yields the
/// whole store, unscored, in insertion order; otherwise the documents with
/// nonzero score, by descending score, ties broken by insertion order.
pub open spec fn candidates(rs: Seq<RecordView>, qlex: Seq<Seq<char>>) -> Seq<ScoredRec> {
    if qlex.len() == 0 {
        score_pairs_of(rs, qlex)
    } else {
        sort_spec(Order::ScoreDesc, positive(score_pairs_of(rs, qlex)))
    }
}

/// Stage three: the final order. An explicit sort attribute sorts the
/// filtered set ascending (stable), and the user-facing order is the
/// reverse of that unless ascending order was requested; without one the
/// stage-one order stands.
pub open spec fn ordered_cands(
    cs: Seq<ScoredRec>,
    sort_by: Option<SortKey>,
    asc: bool,
) -> Seq<ScoredRec> {
    match sort_by {
        None => cs,
        Some(k) => if asc {
            sort_spec(Order::Attr(k), cs)
        } else {
            sort_spec(Order::Attr(k), cs).reverse()
        },
    }
}

/// Stages one and two: the filtered candidate set, whose length is the
/// reported hit count.
pub open spec fn search_filtered(
    rs: Seq<RecordView>,
    q: Seq<char>,
    cfg: AnalyzerConfig,
    f: SearchFiltersView,
) -> Seq<ScoredRec> {
    filter_cands(candidates(rs, crate::analyzer::lexemes_of(q, cfg)), f)
}

/// All four stages: the page of scored records a search returns.
pub open spec fn search_page(
    rs: Seq<RecordView>,
    q: Seq<char>,
    cfg: AnalyzerConfig,
    f: SearchFiltersView,
    sort_by: Option<SortKey>,
    asc: bool,
    skip: int,
    take: int,
) -> Seq<ScoredRec> {
    page_of(ordered_cands(search_filtered(rs, q, cfg, f), sort_by, asc), skip, take)
}

/// The external ids of the returned page, in order.
pub open spec fn search_items(
    rs: Seq<RecordView>,
    q: Seq<char>,
    cfg: AnalyzerConfig,
    f: SearchFiltersView,
    sort_by: Option<SortKey>,
    asc: bool,
    skip: int,
    take: int,
) -> Seq<Seq<char>> {
    search_page(rs, q, cfg, f, sort_by, asc, skip, take).map_values(|p: ScoredRec| p.1.doc.id)
}

/// A document's score as the index gives it: the postings of its internal
/// id summed over the query's lexemes.
pub open spec fn idx_score(idx: IndexView, qlex: Seq<Seq<char>>, i: u64) -> nat
    decreases qlex.len(),
{
    if qlex.len() == 0 {
        0
    } else {
        idx_score(idx, qlex.drop_last(), i) + pcount(idx, qlex.last(), i)
    }
}

/// Under coherence, the index gives exactly the term-match score against
/// the record's own lexemes.
pub proof fn lemma_idx_score_coherent(
    idx: IndexView,
    rs: Seq<RecordView>,
    qlex: Seq<Seq<char>>,
    i: u64,
    k: int,
)
    requires
        coherent(idx, rs),
        0 <= k < rs.len(),
        rs[k].internal_id == i,
        forall|j: int| 0 <= j < rs.len() && j != k ==> (#[trigger] rs[j]).internal_id != i,
    ensures
        idx_score(idx, qlex, i) == query_score(qlex, rs[k].lex),
    decreases qlex.len(),
{
    if qlex.len() > 0 {
        lemma_idx_score_coherent(idx, rs, qlex.drop_last(), i, k);
        assert(pcount(idx, qlex.last(), i) == rec_occ(rs, qlex.last(), i));
        lemma_rec_occ_at(rs, qlex.last(), i, k);
    }
}

/// What a search returns: the ordered page of external ids, and the hit
/// count of the filtered set before pagination.
pub struct SearchResult {
    pub items: Vec<String>,
    pub num_hits: usize,
}

/// What ingest returns: the resulting store size and the index statistics.
pub struct IngestStats {
    pub size: usize,
    pub num_tokens: usize,
    pub num_references: u128,
    pub num_references_per_token: u128,
}

/// A collection service: identity map + document store + inverted index,
/// with one analyzer configuration shared by indexing and querying.
pub struct Collection {
    store: Store,
    index: InvertedIndex,
    cfg: AnalyzerConfig,
}

impl Collection {
    /// The live records, in insertion order.
    pub closed spec fn recs(&self) -> Seq<RecordView> {
        self.store.recs()
    }

    /// The internal id the next ingested document receives.
    pub closed spec fn next(&self) -> u64 {
        self.store.next()
    }

    /// The inverted index's model.
    pub closed spec fn idx(&self) -> IndexView {
        self.index@
    }

    /// The analyzer configuration.
    pub closed spec fn config(&self) -> AnalyzerConfig {
        self.cfg
    }

    /// The service invariant: well-formed store and index, and coherence
    /// between postings and record lexemes.
    pub open spec fn wf(&self) -> bool {
        store_wf(self.recs(), self.next()) && index_wf(self.idx()) && coherent(
            self.idx(),
            self.recs(),
        )
    }

    /// An empty collection with the given analyzer configuration.
    pub fn new(cfg: AnalyzerConfig) -> (r: Self)
        ensures
            r.wf(),
            r.recs() == Seq::<RecordView>::empty(),
            r.next() == 0,
            r.idx() == Seq::<(Seq<char>, Seq<u64>)>::empty(),
            r.config() == cfg,
    {
        let r = Collection { store: Store::new(), index: InvertedIndex::new(), cfg };
        proof {
            assert forall|t: Seq<char>, i: u64| #[trigger] pcount(r.idx(), t, i) == rec_occ(
                r.recs(),
                t,
                i,
            ) by {
                assert(plist(r.idx(), t) =~= Seq::<u64>::empty());
            }
        }
        r
    }

    /// Empty the identity map, document store and inverted index, and
    /// reset the internal-id counter to zero.
    pub fn clear(&mut self)
        ensures
            final(self).wf(),
            final(self).recs() == Seq::<RecordView>::empty(),
            final(self).next() == 0,
            final(self).idx() == Seq::<(Seq<char>, Seq<u64>)>::empty(),
            final(self).config() == old(self).config(),
    {
        self.store.clear();
        self.index.clear();
        proof {
            assert forall|t: Seq<char>, i: u64| #[trigger] pcount(self.idx(), t, i) == rec_occ(
                self.recs(),
                t,
                i,
            ) by {
                assert(plist(self.idx(), t) =~= Seq::<u64>::empty());
            }
        }
    }

    /// Ingest a batch of input documents, in order. Each is normalized to
    /// its stored shape and recorded under a fresh internal id, its
    /// searchable texts are analyzed and registered in the index, and a
    /// document whose external id is already known first has its old record
    /// and postings removed. Returns the resulting store size and index
    /// statistics.
    pub fn ingest(&mut self, batch: Vec<InputScene>) -> (r: IngestStats)
        requires
            old(self).wf(),
            old(self).next() + batch@.len() <= u64::MAX,
        ensures
            final(self).wf(),
            final(self).config() == old(self).config(),
            (final(self).recs(), final(self).next()) == ingest_seq(
                old(self).recs(),
                old(self).next(),
                input_views(batch@),
                old(self).config(),
            ),
            final(self).idx() == ingest_full(
                old(self).recs(),
                old(self).next(),
                old(self).idx(),
                input_views(batch@),
                old(self).config(),
            ).2,
            r.size == final(self).recs().len(),
            r.num_tokens == tokens_of(final(self).idx()).len(),
            r.num_references == total_postings(final(self).idx()),
            r.num_references_per_token == if tokens_of(final(self).idx()).len() == 0 {
                0int
            } else {
                total_postings(final(self).idx()) as int / tokens_of(final(self).idx()).len() as int
            },
    {
        let ghost rs0 = self.recs();
        let ghost next0 = self.next();
        let ghost idx0_all = self.idx();
        let ghost dv0 = input_views(batch@);
        let ghost cfgv = self.cfg;
        let mut rest = batch;
        let total: usize = rest.len();
        let ghost n = dv0.len();
        let mut j: usize = 0;
        proof {
            assert(dv0.take(0) =~= Seq::<InputSceneView>::empty());
            assert(ingest_full(rs0, next0, idx0_all, dv0.take(0), cfgv) == ((
                rs0,
                next0,
                idx0_all,
            )));
            assert(input_views(rest@) =~= dv0.skip(0));
        }
        while rest.len() > 0
            invariant
                self.cfg == cfgv,
                n == dv0.len(),
                n == total,
                j + rest@.len() == n,
                next0 + n <= u64::MAX,
                input_views(rest@) == dv0.skip(j as int),
                (self.recs(), self.next(), self.idx()) == ingest_full(
                    rs0,
                    next0,
                    idx0_all,
                    dv0.take(j as int),
                    cfgv,
                ),
                self.next() == next0 + j,
                store_wf(self.recs(), self.next()),
                index_wf(self.idx()),
                coherent(self.idx(), self.recs()),
            decreases rest@.len(),
        {
            let ghost rs_j = self.recs();
            let ghost next_j = self.next();
            let ghost idx_j = self.idx();
            let ghost pre_rest = rest@;
            let d = rest.remove(0);
            let ghost dv = d@;
            proof {
                assert(dv == input_views(pre_rest)[0]);
                assert(dv == dv0.skip(j as int)[0]);
                assert(dv == dv0[j as int]);
                assert(rest@ =~= pre_rest.drop_first());
                assert forall|q: int| 0 <= q < rest@.len() implies #[trigger] input_views(
                    rest@,
                )[q] == dv0.skip(j + 1)[q] by {
                    assert(input_views(rest@)[q] == rest@[q]@);
                    assert(rest@[q] == pre_rest[q + 1]);
                    assert(input_views(pre_rest)[q + 1] == pre_rest[q + 1]@);
                    assert(input_views(pre_rest)[q + 1] == dv0.skip(j as int)[q + 1]);
                    assert(dv0.skip(j as int)[q + 1] == dv0[j + 1 + q]);
                    assert(dv0.skip(j + 1)[q] == dv0[j + 1 + q]);
                }
                assert(input_views(rest@).len() == dv0.skip(j + 1).len());
                assert(input_views(rest@) =~= dv0.skip(j + 1));
            }
            let prev = self.store.resolve(d.id.as_str());
            match prev {
                Some(i) => {
                    self.index.retract(i);
                },
                None => {},
            }
            proof {
                match prev {
                    Some(i) => {
                        lemma_retract_sem(idx_j, i);
                    },
                    None => {},
                }
            }
            let lexv = collect_lexemes(&d, &self.cfg);
            let stored = create_storage_scene(&d);
            let id = self.store.next_internal_id();
            self.index.add_batch(&lexv, id);
            let id2 = self.store.put(stored, lexv);
            proof {
                assert(id2 == id);
                lemma_ingest_step_coherent(idx_j, rs_j, next_j, dv, cfgv);
                assert(self.recs() == ingest_one_recs(rs_j, next_j, dv, cfgv)) by {
                    assert(stored@ == stored_of(dv));
                }
                assert(self.idx() == ingest_step_idx(idx_j, rs_j, next_j, dv, cfgv));
                lemma_ingest_full_snoc(rs0, next0, idx0_all, dv0.take(j as int), dv, cfgv);
                assert(dv0.take(j as int).push(dv) =~= dv0.take(j + 1));
            }
            j = j + 1;
        }
        proof {
            assert(dv0.take(n as int) =~= dv0);
            lemma_ingest_full_seq(rs0, next0, idx0_all, dv0, cfgv);
        }
        let size = self.store.len();
        let num_tokens = self.index.token_count();
        let num_references = self.index.total_refs();
        let per = if num_tokens == 0 {
            0
        } else {
            num_references / (num_tokens as u128)
        };
        IngestStats { size, num_tokens, num_references, num_references_per_token: per }
    }

    /// Overwrite the document with the given external id in place: same
    /// internal id, new stored content, old postings retracted before the
    /// new text is indexed. Fails with `NotFound` when the external id is
    /// unknown, leaving the collection unchanged.
    pub fn update(&mut self, external_id: &str, input: InputScene) -> (r: Result<
        (),
        EngineError,
    >)
        requires
            old(self).wf(),
            input.id@ == external_id@,
        ensures
            final(self).wf(),
            final(self).config() == old(self).config(),
            final(self).next() == old(self).next(),
            match resolve_spec(old(self).recs(), external_id@) {
                None => r == Err::<(), EngineError>(EngineError::NotFound) && final(self).recs()
                    == old(self).recs() && final(self).idx() == old(self).idx(),
                Some(i) => r == Ok::<(), EngineError>(()) && final(self).recs() == old(
                    self,
                ).recs().update(
                    pos_of_ext(old(self).recs(), external_id@),
                    (RecordView {
                        doc: stored_of(input@),
                        internal_id: i,
                        lex: input_lexemes(input@, old(self).config()),
                    }),
                ) && final(self).idx() == add_all(
                    retract_all(old(self).idx(), i),
                    input_lexemes(input@, old(self).config()),
                    i,
                ),
            },
    {
        let ghost rs0 = self.recs();
        let ghost idx0 = self.idx();
        let ghost next0 = self.next();
        let ghost cfgv = self.cfg;
        let resolved = self.store.resolve(external_id);
        match resolved {
            None => Err(EngineError::NotFound),
            Some(i) => {
                proof {
                    crate::store::lemma_pos_of_ext(rs0, external_id@);
                    crate::store::lemma_pos_of_iid(rs0, i);
                    lemma_wf_unique_iids(rs0, next0);
                    let p = pos_of_ext(rs0, external_id@);
                    assert(rs0[p].internal_id == i);
                    assert(has_iid(rs0, i)) by {
                        assert(rs0[p].internal_id == i);
                    }
                    assert(pos_of_iid(rs0, i) == p) by {
                        let q = pos_of_iid(rs0, i);
                        if q != p {
                            assert(rs0[q].internal_id == i);
                        }
                    }
                }
                self.index.retract(i);
                proof {
                    lemma_retract_sem(idx0, i);
                }
                let lexv = collect_lexemes(&input, &self.cfg);
                let stored = create_storage_scene(&input);
                self.index.add_batch(&lexv, i);
                self.store.replace(i, stored, lexv);
                proof {
                    let p = pos_of_ext(rs0, external_id@);
                    let newrec = RecordView {
                        doc: stored_of(input@),
                        internal_id: i,
                        lex: input_lexemes(input@, cfgv),
                    };
                    assert(self.recs() == rs0.update(p, newrec));
                    lemma_add_all_sem(retract_all(idx0, i), input_lexemes(input@, cfgv), i);
                    assert(coherent(self.idx(), self.recs())) by {
                        assert forall|t: Seq<char>, x: u64| #[trigger] pcount(self.idx(), t, x)
                            == rec_occ(self.recs(), t, x) by {
                            lemma_rec_occ_update(rs0, p, newrec, next0, t, x);
                            if x == i {
                                assert(pcount(retract_all(idx0, i), t, x) == 0);
                                assert(pcount(self.idx(), t, x) == occ_tok(
                                    input_lexemes(input@, cfgv),
                                    t,
                                ));
                            } else {
                                assert(pcount(self.idx(), t, x) == pcount(
                                    retract_all(idx0, i),
                                    t,
                                    x,
                                ));
                                assert(pcount(retract_all(idx0, i), t, x) == pcount(idx0, t, x));
                            }
                        }
                    }
                }
                Ok(())
            },
        }
    }

    /// The number of live documents.
    pub fn size(&self) -> (r: usize)
        ensures
            r == self.recs().len(),
    {
        self.store.len()
    }

    /// The internal id of the document with the given external id, when one
    /// is live.
    pub fn resolve(&self, external_id: &str) -> (r: Option<u64>)
        ensures
            r == resolve_spec(self.recs(), external_id@),
    {
        self.store.resolve(external_id)
    }

    /// The stored document with the given internal id, when one is live.
    pub fn get(&self, internal_id: u64) -> (r: Option<&StoredScene>)
        ensures
            match r {
                Some(d) => has_iid(self.recs(), internal_id) && d@ == self.recs()[pos_of_iid(
                    self.recs(),
                    internal_id,
                )].doc,
                None => !has_iid(self.recs(), internal_id),
            },
    {
        self.store.get(internal_id)
    }

    /// The posting list of a lexeme: the internal ids whose indexed text
    /// produced it, in registration order, with multiplicity; empty when
    /// the index has no entry for it.
    pub fn postings(&self, token: &Vec<char>) -> (r: Vec<u64>)
        ensures
            r@ == plist(self.idx(), token@),
    {
        match self.index.lookup(token) {
            Some(v) => {
                let mut r: Vec<u64> = Vec::new();
                let mut i: usize = 0;
                while i < v.len()
                    invariant
                        i <= v@.len(),
                        r@ == v@.take(i as int),
                    decreases v@.len() - i,
                {
                    r.push(v[i]);
                    proof {
                        assert(r@ =~= v@.take(i + 1));
                    }
                    i = i + 1;
                }
                proof {
                    assert(v@.take(v@.len() as int) =~= v@);
                }
                r
            },
            None => {
                proof {
                    lemma_plist_absent(self.idx(), token@);
                }
                Vec::new()
            },
        }
    }

    /// The index's score for one internal id under a query's lexemes.
    fn score_record(&self, qlex: &Vec<Vec<char>>, iid: u64) -> (r: u128)
        ensures
            r == idx_score(self.idx(), views_of(qlex@), iid),
    {
        let ghost ql = views_of(qlex@);
        let mut sum: u128 = 0;
        let mut j: usize = 0;
        proof {
            assert(ql.take(0) =~= Seq::<Seq<char>>::empty());
        }
        while j < qlex.len()
            invariant
                ql == views_of(qlex@),
                ql.len() == qlex@.len(),
                j <= qlex@.len(),
                sum == idx_score(self.idx(), ql.take(j as int), iid),
                sum <= (j as int) * (usize::MAX as int),
            decreases qlex@.len() - j,
        {
            let c: usize = match self.index.lookup(&qlex[j]) {
                Some(v) => count_ids(v, iid),
                None => 0,
            };
            proof {
                assert(qlex@[j as int]@ == ql[j as int]);
                if !crate::index::has_token(self.idx(), ql[j as int]) {
                    lemma_plist_absent(self.idx(), ql[j as int]);
                }
                assert(c == pcount(self.idx(), ql[j as int], iid));
                assert(ql.take(j + 1).drop_last() =~= ql.take(j as int));
                assert(ql.take(j + 1).last() == ql[j as int]);
                assert((j as int) * (usize::MAX as int) + (usize::MAX as int) == (j as int + 1) * (
                usize::MAX as int)) by (nonlinear_arith);
                assert((j as int + 1) * (usize::MAX as int) < u128::MAX as int)
                    by (nonlinear_arith)
                    requires
                        0 <= j as int + 1 <= 0x1_0000_0000_0000_0000,
                        0 < usize::MAX as int <= 0xffff_ffff_ffff_ffff,
                ;
            }
            sum = sum + c as u128;
            j = j + 1;
        }
        proof {
            assert(ql.take(ql.len() as int) =~= ql);
        }
        sum
    }

    /// Stage one: the candidate list, as score and store position pairs.
    /// For a non-empty query only nonzero scores are kept, in store order;
    /// the relevance sort follows separately.
    fn build_candidates(&self, qlex: &Vec<Vec<char>>) -> (r: Vec<(u128, usize)>)
        requires
            self.wf(),
        ensures
            cands_ok(r@, self.recs()),
            cand_views(r@, self.recs()) == if views_of(qlex@).len() == 0 {
                score_pairs_of(self.recs(), views_of(qlex@))
            } else {
                positive(score_pairs_of(self.recs(), views_of(qlex@)))
            },
    {
        let ghost ql = views_of(qlex@);
        let ghost rs = self.recs();
        let ghost raw = score_pairs_of(rs, ql);
        let n = self.store.len();
        let mut out: Vec<(u128, usize)> = Vec::new();
        let mut k: usize = 0;
        proof {
            assert(raw.take(0) =~= Seq::<ScoredRec>::empty());
            assert(positive(raw.take(0)) =~= Seq::<ScoredRec>::empty()) by {
                reveal_with_fuel(Seq::<_>::filter, 2);
            }
            assert(cand_views(out@, rs) =~= Seq::<ScoredRec>::empty());
        }
        while k < n
            invariant
                self.wf(),
                ql == views_of(qlex@),
                rs == self.recs(),
                raw == score_pairs_of(rs, ql),
                raw.len() == rs.len(),
                n == rs.len(),
                k <= n,
                cands_ok(out@, rs),
                cand_views(out@, rs) == if ql.len() == 0 {
                    raw.take(k as int)
                } else {
                    positive(raw.take(k as int))
                },
            decreases n - k,
        {
            let iid = self.store.record_at(k).internal_id;
            let s = self.score_record(qlex, iid);
            proof {
                assert(rs[k as int].internal_id == iid);
                lemma_wf_unique_iids(rs, self.next());
                lemma_idx_score_coherent(self.idx(), rs, ql, iid, k as int);
                assert(s == query_score(ql, rs[k as int].lex));
                assert(raw[k as int] == ((query_score(ql, rs[k as int].lex), rs[k as int])));
                assert(raw.take(k + 1).drop_last() =~= raw.take(k as int));
                assert(raw.take(k + 1).last() == raw[k as int]);
                if ql.len() > 0 {
                    lemma_positive_step(raw.take(k + 1));
                }
            }
            if qlex.len() == 0 {
                let ghost pre = out@;
                out.push((s, k));
                proof {
                    assert(cand_views(out@, rs) =~= cand_views(pre, rs).push(raw[k as int]));
                    assert(cand_views(out@, rs) =~= raw.take(k + 1));
                }
            } else if s > 0 {
                let ghost pre = out@;
                out.push((s, k));
                proof {
                    assert(cand_views(out@, rs) =~= cand_views(pre, rs).push(raw[k as int]));
                    assert(cand_views(out@, rs) =~= positive(raw.take(k + 1)));
                }
            } else {
                proof {
                    assert(cand_views(out@, rs) =~= positive(raw.take(k + 1)));
                }
            }
            k = k + 1;
        }
        proof {
            assert(raw.take(raw.len() as int) =~= raw);
        }
        out
    }

    /// Execute the query pipeline: candidate selection by relevance,
    /// attribute filtering, ordering, and pagination. Returns the ordered
    /// page of external ids and the hit count of the filtered set before
    /// pagination.
    pub fn search(
        &self,
        query: &str,
        filters: &SearchFilters,
        sort_by: Option<SortKey>,
        sort_asc: bool,
        skip: usize,
        take: usize,
    ) -> (r: SearchResult)
        requires
            self.wf(),
        ensures
            r.num_hits == search_filtered(self.recs(), query@, self.config(), filters@).len(),
            str_views(r.items@) == search_items(
                self.recs(),
                query@,
                self.config(),
                filters@,
                sort_by,
                sort_asc,
                skip as int,
                take as int,
            ),
    {
        let ghost rs = self.recs();
        let ghost ql = crate::analyzer::lexemes_of(query@, self.cfg);
        let qlex = crate::analyzer::tokenize(query, &self.cfg);
        let cands0 = self.build_candidates(&qlex);
        let cands = if qlex.len() > 0 {
            sort_pairs(&self.store, Order::ScoreDesc, cands0)
        } else {
            cands0
        };
        proof {
            assert(cand_views(cands@, rs) == candidates(rs, ql));
        }
        let filtered = filter_pairs(&self.store, cands, filters);
        let num_hits = filtered.len();
        proof {
            assert(cand_views(filtered@, rs) == search_filtered(rs, query@, self.cfg, filters@));
            assert(cand_views(filtered@, rs).len() == filtered@.len());
        }
        let ghost fview = cand_views(filtered@, rs);
        let ordered = match sort_by {
            None => filtered,
            Some(k) => {
                let sorted = sort_pairs(&self.store, Order::Attr(k), filtered);
                if sort_asc {
                    sorted
                } else {
                    let rev = reverse_pairs(sorted);
                    proof {
                        assert(cand_views(rev@, rs) =~= cand_views(sorted@, rs).reverse());
                        assert(cands_ok(rev@, rs)) by {
                            assert(forall|q: int|
                                0 <= q < rev@.len() ==> #[trigger] rev@[q] == sorted@[rev@.len() - 1
                                    - q]);
                        }
                    }
                    rev
                }
            },
        };
        proof {
            assert(cand_views(ordered@, rs) == ordered_cands(fview, sort_by, sort_asc));
        }
        let page = paginate(ordered, skip, take);
        proof {
            assert(cand_views(page@, rs) == page_of(
                cand_views(ordered@, rs),
                skip as int,
                take as int,
            ));
            assert(cands_ok(page@, rs));
        }
        let mut items: Vec<String> = Vec::new();
        let mut q: usize = 0;
        let ghost pview = cand_views(page@, rs);
        while q < page.len()
            invariant
                rs == self.recs(),
                pview == cand_views(page@, rs),
                pview.len() == page@.len(),
                cands_ok(page@, rs),
                q <= page@.len(),
                items@.len() == q,
                forall|q2: int| 0 <= q2 < q ==> #[trigger] items@[q2]@ == pview[q2].1.doc.id,
            decreases page@.len() - q,
        {
            let pos = page[q].1;
            items.push(self.store.record_at(pos).doc.id.clone());
            proof {
                assert(pview[q as int] == ((page@[q as int].0 as nat, rs[page@[q as int].1 as int])));
            }
            q = q + 1;
        }
        proof {
            assert(str_views(items@) =~= search_items(
                rs,
                query@,
                self.cfg,
                filters@,
                sort_by,
                sort_asc,
                skip as int,
                take as int,
            ));
        }
        SearchResult { items, num_hits }
    }

    /// Remove the document with the given external id: its record leaves
    /// the store and the identity map, and every posting of its internal id
    /// is retracted. Fails with `NotFound` when the external id is unknown,
    /// leaving the collection unchanged.
    pub fn delete(&mut self, external_id: &str) -> (r: Result<(), EngineError>)
        requires
            old(self).wf(),
        ensures
            final(self).wf(),
            final(self).config() == old(self).config(),
            final(self).next() == old(self).next(),
            match resolve_spec(old(self).recs(), external_id@) {
                None => r == Err::<(), EngineError>(EngineError::NotFound) && final(self).recs()
                    == old(self).recs() && final(self).idx() == old(self).idx(),
                Some(i) => r == Ok::<(), EngineError>(()) && final(self).recs() == remove_ext(
                    old(self).recs(),
                    external_id@,
                ) && final(self).idx() == retract_all(old(self).idx(), i),
            },
    {
        let ghost rs0 = self.recs();
        let ghost idx0 = self.idx();
        let ghost next0 = self.next();
        let removed = self.store.remove(external_id);
        match removed {
            None => Err(EngineError::NotFound),
            Some(i) => {
                self.index.retract(i);
                proof {
                    lemma_retract_sem(idx0, i);
                    crate::store::lemma_pos_of_ext(rs0, external_id@);
                    assert(coherent(self.idx(), self.recs())) by {
                        assert forall|t: Seq<char>, x: u64| #[trigger] pcount(self.idx(), t, x)
                            == rec_occ(self.recs(), t, x) by {
                            lemma_rec_occ_remove_ext(rs0, external_id@, next0, t, x);
                        }
                    }
                }
                Ok(())
            },
        }
    }
}

/// Every searchable lexeme of an input document, as executable vectors, in
/// indexing order.
fn collect_lexemes(d: &InputScene, cfg: &AnalyzerConfig) -> (r: Vec<Vec<char>>)
    ensures
        views_of(r@) == input_lexemes(d@, *cfg),
{
    let mut out = crate::analyzer::tokenize(d.name.as_str(), cfg);
    let ghost dv = d@;
    proof {
        lemma_list_texts_empty(*cfg);
    }
    match &d.studio_name {
        Some(s) => {
            let mut t = crate::analyzer::tokenize(s.as_str(), cfg);
            let ghost pre = out@;
            let ghost tv = t@;
            out.append(&mut t);
            proof {
                assert(views_of(out@) =~= views_of(pre) + views_of(tv));
            }
        },
        None => {},
    }
    let ghost head = views_of(out@);
    let mut actor_lex = lexemes_of_aliasables(&d.actors, cfg);
    let ghost av = actor_lex@;
    out.append(&mut actor_lex);
    proof {
        assert(views_of(out@) =~= head + views_of(av));
    }
    let ghost head2 = views_of(out@);
    let mut label_lex = lexemes_of_aliasables(&d.labels, cfg);
    let ghost bv = label_lex@;
    out.append(&mut label_lex);
    proof {
        assert(views_of(out@) =~= head2 + views_of(bv));
        let studio_texts: Seq<Seq<char>> = match dv.studio_name {
            Some(s) => seq![s],
            None => Seq::<Seq<char>>::empty(),
        };
        let ts = input_texts(dv);
        assert(ts == seq![dv.name] + studio_texts + list_texts(dv.actors) + list_texts(dv.labels));
        lemma_texts_lexemes_concat(
            seq![dv.name] + studio_texts + list_texts(dv.actors),
            list_texts(dv.labels),
            *cfg,
        );
        lemma_texts_lexemes_concat(seq![dv.name] + studio_texts, list_texts(dv.actors), *cfg);
        lemma_texts_lexemes_concat(seq![dv.name], studio_texts, *cfg);
        assert(texts_lexemes(seq![dv.name], *cfg) =~= crate::analyzer::lexemes_of(dv.name, *cfg))
            by {
            assert(seq![dv.name][0] == dv.name);
            assert(seq![dv.name].drop_first() =~= Seq::<Seq<char>>::empty());
            assert(crate::analyzer::lexemes_of(dv.name, *cfg) + Seq::<Seq<char>>::empty()
                =~= crate::analyzer::lexemes_of(dv.name, *cfg));
        }
        match dv.studio_name {
            Some(s) => {
                assert(texts_lexemes(studio_texts, *cfg) =~= crate::analyzer::lexemes_of(s, *cfg))
                    by {
                    assert(studio_texts[0] == s);
                    assert(studio_texts.drop_first() =~= Seq::<Seq<char>>::empty());
                    assert(crate::analyzer::lexemes_of(s, *cfg) + Seq::<Seq<char>>::empty()
                        =~= crate::analyzer::lexemes_of(s, *cfg));
                }
            },
            None => {
                assert(texts_lexemes(studio_texts, *cfg) =~= Seq::<Seq<char>>::empty());
            },
        }
        assert(views_of(out@) =~= input_lexemes(dv, *cfg));
    }
    out
}

/// The lexemes contributed by a list of referenced entities, in order.
fn lexemes_of_aliasables(v: &Vec<Aliasable>, cfg: &AnalyzerConfig) -> (r: Vec<Vec<char>>)
    ensures
        views_of(r@) == texts_lexemes(list_texts(crate::document::alias_views(v@)), *cfg),
{
    let ghost lv = crate::document::alias_views(v@);
    let mut out: Vec<Vec<char>> = Vec::new();
    let mut j: usize = 0;
    proof {
        assert(lv.take(0) =~= Seq::<crate::document::AliasableView>::empty());
        lemma_list_texts_empty(*cfg);
        assert(views_of(out@) =~= Seq::<Seq<char>>::empty());
    }
    while j < v.len()
        invariant
            lv == crate::document::alias_views(v@),
            lv.len() == v@.len(),
            j <= v@.len(),
            views_of(out@) == texts_lexemes(list_texts(lv.take(j as int)), *cfg),
        decreases v@.len() - j,
    {
        let ghost a = lv[j as int];
        let ghost pre = views_of(out@);
        let mut name_lex = crate::analyzer::tokenize(v[j].name.as_str(), cfg);
        let ghost nv = name_lex@;
        out.append(&mut name_lex);
        proof {
            assert(views_of(out@) =~= pre + views_of(nv));
            assert(v@[j as int].name@ == a.name);
        }
        let joined = match &v[j].aliases {
            Some(al) => crate::text::join_all(al),
            None => String::new(),
        };
        proof {
            assert(joined@ == crate::document::alias_join(a)) by {
                match v@[j as int].aliases {
                    Some(al) => {
                        assert(a.aliases == Some(crate::text::str_views(al@)));
                    },
                    None => {
                        assert(a.aliases is None);
                        assert(joined@ =~= Seq::<char>::empty());
                    },
                }
            }
        }
        let ghost pre2 = views_of(out@);
        let mut join_lex = crate::analyzer::tokenize(joined.as_str(), cfg);
        let ghost jv = join_lex@;
        out.append(&mut join_lex);
        proof {
            assert(views_of(out@) =~= pre2 + views_of(jv));
            crate::document::lemma_texts_lexemes_pair(a, *cfg);
            crate::document::lemma_list_texts_snoc(lv.take(j as int), a, *cfg);
            assert(lv.take(j + 1) =~= lv.take(j as int).push(a));
            assert(views_of(out@) =~= texts_lexemes(list_texts(lv.take(j + 1)), *cfg));
        }
        j = j + 1;
    }
    proof {
        assert(lv.take(lv.len() as int) =~= lv);
    }
    out
}

} // verus!
