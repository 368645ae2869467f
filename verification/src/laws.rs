//! The engine's cross-operation laws, each proved against the models that
//! the operations' own contracts use: what ingest guarantees to a later
//! search, what update and delete retract, how filters constrain results,
//! and how consecutive pages fit together.

use vstd::prelude::*;

use crate::analyzer::{lexemes_of, AnalyzerConfig};
use crate::document::{input_lexemes, input_texts, stored_of, texts_lexemes, InputSceneView};
use crate::index::{
    count64, drop_id, lemma_retract_sem, occ_tok, plist, retract_all, IndexView,
};
use crate::pipeline::{
    filter_cands, lemma_filter_cands_step, lemma_no_filters_pass, lemma_sort_spec_contains,
    matches_filters, no_filters, page_of, sort_spec, Order, ScoredRec, SearchFiltersView, SortKey,
};
use crate::service::{
    candidates, ingest_one_recs, ingest_seq, lemma_positive_step, ordered_cands, positive,
    query_score, score_pairs_of, search_filtered, search_items, search_page,
};
use crate::store::{has_ext, pos_of_ext, remove_ext, store_wf, RecordView};

verus! {

/// Occurrence counts add over concatenation.
proof fn lemma_occ_concat(a: Seq<Seq<char>>, b: Seq<Seq<char>>, t: Seq<char>)
    ensures
        occ_tok(a + b, t) == occ_tok(a, t) + occ_tok(b, t),
    decreases b.len(),
{
    if b.len() == 0 {
        assert(a + b =~= a);
    } else {
        assert((a + b).drop_last() =~= a + b.drop_last());
        assert((a + b).last() == b.last());
        lemma_occ_concat(a, b.drop_last(), t);
    }
}

/// A lexeme occurs at least once in a sequence that contains it, and not
/// at all in one that does not.
proof fn lemma_occ_contains(s: Seq<Seq<char>>, t: Seq<char>)
    ensures
        s.contains(t) ==> occ_tok(s, t) >= 1,
        !s.contains(t) ==> occ_tok(s, t) == 0,
    decreases s.len(),
{
    if s.len() > 0 {
        lemma_occ_contains(s.drop_last(), t);
        if s.contains(t) && s.last() != t {
            let j = choose|j: int| 0 <= j < s.len() && s[j] == t;
            assert(s.drop_last()[j] == t);
        }
        if s.drop_last().contains(t) {
            let j = choose|j: int| 0 <= j < s.drop_last().len() && s.drop_last()[j] == t;
            assert(s[j] == t);
        }
        if s.last() == t {
            assert(s[s.len() - 1] == t);
        }
    }
}

/// A value counted zero times is not contained.
proof fn lemma_count64_zero(s: Seq<u64>, x: u64)
    requires
        count64(s, x) == 0,
    ensures
        !s.contains(x),
    decreases s.len(),
{
    if s.len() > 0 {
        lemma_count64_zero(s.drop_last(), x);
        if s.contains(x) {
            let j = choose|j: int| 0 <= j < s.len() && s[j] == x;
            if j < s.len() - 1 {
                assert(s.drop_last()[j] == x);
            }
        }
    }
}

/// A document sharing no lexeme with the query scores zero.
proof fn lemma_query_score_zero(qlex: Seq<Seq<char>>, lex: Seq<Seq<char>>)
    requires
        forall|j: int| 0 <= j < qlex.len() ==> !lex.contains(#[trigger] qlex[j]),
    ensures
        query_score(qlex, lex) == 0,
    decreases qlex.len(),
{
    if qlex.len() > 0 {
        assert(forall|j: int|
            0 <= j < qlex.drop_last().len() ==> !lex.contains(#[trigger] qlex.drop_last()[j]));
        lemma_query_score_zero(qlex.drop_last(), lex);
        assert(!lex.contains(qlex[qlex.len() - 1]));
        lemma_occ_contains(lex, qlex.last());
    }
}

/// An element with positive score stays in the positive projection.
proof fn lemma_positive_contains(cs: Seq<ScoredRec>, j: int)
    requires
        0 <= j < cs.len(),
        cs[j].0 > 0,
    ensures
        positive(cs).contains(cs[j]),
    decreases cs.len(),
{
    lemma_positive_step(cs);
    if j == cs.len() - 1 {
        let out = positive(cs);
        assert(out.last() == cs.last());
        assert(out[out.len() - 1] == cs[j]);
    } else {
        assert(cs.drop_last()[j] == cs[j]);
        lemma_positive_contains(cs.drop_last(), j);
        let sub = positive(cs.drop_last());
        let l = choose|l: int| 0 <= l < sub.len() && sub[l] == cs[j];
        if cs.last().0 > 0 {
            assert(positive(cs)[l] == cs[j]);
        }
    }
}

/// Every positive element is an element of the input with positive score.
proof fn lemma_positive_members(cs: Seq<ScoredRec>)
    ensures
        forall|q: int|
            0 <= q < positive(cs).len() ==> (#[trigger] positive(cs)[q]).0 > 0 && cs.contains(
                positive(cs)[q],
            ),
    decreases cs.len(),
{
    if cs.len() > 0 {
        lemma_positive_members(cs.drop_last());
        lemma_positive_step(cs);
        assert forall|q: int| 0 <= q < positive(cs).len() implies (#[trigger] positive(
            cs,
        )[q]).0 > 0 && cs.contains(positive(cs)[q]) by {
            let sub = positive(cs.drop_last());
            if q < sub.len() {
                assert(positive(cs)[q] == sub[q]);
                let l = choose|l: int| 0 <= l < cs.drop_last().len() && cs.drop_last()[l] == sub[q];
                assert(cs[l] == sub[q]);
            } else {
                assert(positive(cs)[q] == cs.last());
                assert(cs[cs.len() - 1] == cs.last());
            }
        }
    }
}

/// An empty filter set filters nothing out.
proof fn lemma_filter_none(cs: Seq<ScoredRec>)
    ensures
        filter_cands(cs, no_filters()) == cs,
    decreases cs.len(),
{
    if cs.len() == 0 {
        assert(filter_cands(cs, no_filters()) =~= cs) by {
            reveal_with_fuel(Seq::<_>::filter, 2);
        }
    } else {
        lemma_filter_none(cs.drop_last());
        lemma_filter_cands_step(cs, no_filters());
        lemma_no_filters_pass(cs.last().1.doc);
        assert(cs.drop_last().push(cs.last()) =~= cs);
    }
}

/// Reversal keeps membership.
proof fn lemma_reverse_contains(s: Seq<ScoredRec>, x: ScoredRec)
    ensures
        s.reverse().contains(x) <==> s.contains(x),
{
    if s.reverse().contains(x) {
        let j = choose|j: int| 0 <= j < s.reverse().len() && s.reverse()[j] == x;
        assert(s[s.len() - 1 - j] == x);
    }
    if s.contains(x) {
        let j = choose|j: int| 0 <= j < s.len() && s[j] == x;
        assert(s.reverse()[s.len() - 1 - j] == x);
    }
}

/// Everything on a returned page is a member of the filtered candidate
/// set.
pub proof fn lemma_page_from_filtered(
    rs: Seq<RecordView>,
    q: Seq<char>,
    cfg: AnalyzerConfig,
    f: SearchFiltersView,
    sort_by: Option<SortKey>,
    asc: bool,
    skip: int,
    take: int,
    j: int,
)
    requires
        0 <= j < search_page(rs, q, cfg, f, sort_by, asc, skip, take).len(),
        0 <= skip,
        0 <= take,
    ensures
        search_filtered(rs, q, cfg, f).contains(
            search_page(rs, q, cfg, f, sort_by, asc, skip, take)[j],
        ),
{
    let filtered = search_filtered(rs, q, cfg, f);
    let ord = ordered_cands(filtered, sort_by, asc);
    let page = page_of(ord, skip, take);
    let x = page[j];
    assert(ord.contains(x)) by {
        assert(page[j] == ord[(if skip < ord.len() {
            skip
        } else {
            ord.len() as int
        }) + j]);
    }
    match sort_by {
        None => {},
        Some(k) => {
            lemma_sort_spec_contains(Order::Attr(k), filtered);
            if !asc {
                lemma_reverse_contains(sort_spec(Order::Attr(k), filtered), x);
            }
        },
    }
}

/// Every member of the filtered candidate set passes the filters and is a
/// candidate.
pub proof fn lemma_filtered_member(
    rs: Seq<RecordView>,
    q: Seq<char>,
    cfg: AnalyzerConfig,
    f: SearchFiltersView,
    x: ScoredRec,
)
    requires
        search_filtered(rs, q, cfg, f).contains(x),
    ensures
        matches_filters(x.1.doc, f),
        candidates(rs, lexemes_of(q, cfg)).contains(x),
{
    let cs = candidates(rs, lexemes_of(q, cfg));
    crate::pipeline::lemma_filter_cands_members(cs, f);
    let j = choose|j: int|
        0 <= j < search_filtered(rs, q, cfg, f).len() && search_filtered(rs, q, cfg, f)[j] == x;
    assert(matches_filters(search_filtered(rs, q, cfg, f)[j].1.doc, f));
}

/// Every candidate of a non-empty query is a live record with its
/// term-match score, and that score is positive.
pub proof fn lemma_candidate_member(
    rs: Seq<RecordView>,
    qlex: Seq<Seq<char>>,
    x: ScoredRec,
)
    requires
        qlex.len() > 0,
        candidates(rs, qlex).contains(x),
    ensures
        x.0 > 0,
        exists|k: int|
            0 <= k < rs.len() && #[trigger] rs[k] == x.1 && x.0 == query_score(qlex, rs[k].lex),
{
    let raw = score_pairs_of(rs, qlex);
    lemma_sort_spec_contains(Order::ScoreDesc, positive(raw));
    assert(positive(raw).contains(x));
    lemma_positive_members(raw);
    let j = choose|j: int| 0 <= j < positive(raw).len() && positive(raw)[j] == x;
    assert(raw.contains(x));
    let k = choose|k: int| 0 <= k < raw.len() && raw[k] == x;
    assert(raw[k] == ((query_score(qlex, rs[k].lex), rs[k])));
    assert(rs[k] == x.1 && x.0 == query_score(qlex, rs[k].lex));
}

/// Document text and a query string that read the same are normalized to
/// the same lexeme sequence under one configuration, because indexing and
/// query normalization share the single analyzer. This is the precondition
/// for recall: an indexed word can always be found by querying it.
pub proof fn lemma_analyzer_symmetry(text: Seq<char>, query: Seq<char>, cfg: AnalyzerConfig)
    requires
        text == query,
    ensures
        lexemes_of(text, cfg) == lexemes_of(query, cfg),
{
}

/// Ingesting one document keeps the store well-formed.
pub proof fn lemma_ingest_one_wf(
    rs: Seq<RecordView>,
    next: u64,
    d: InputSceneView,
    cfg: AnalyzerConfig,
)
    requires
        store_wf(rs, next),
        next < u64::MAX,
    ensures
        store_wf(ingest_one_recs(rs, next, d, cfg), (next + 1) as u64),
        ingest_one_recs(rs, next, d, cfg).len() > 0,
        ingest_one_recs(rs, next, d, cfg).last() == (RecordView {
            doc: stored_of(d),
            internal_id: next,
            lex: input_lexemes(d, cfg),
        }),
{
    crate::store::lemma_remove_ext_wf(rs, d.id, next);
    let mid = remove_ext(rs, d.id);
    let new = ingest_one_recs(rs, next, d, cfg);
    assert(forall|j: int| 0 <= j < mid.len() ==> #[trigger] new[j] == mid[j]);
    assert(forall|j: int| 0 <= j < mid.len() ==> (#[trigger] mid[j]).internal_id < next);
}

/// The first lexemes a document contributes are those of its name.
proof fn lemma_input_lexemes_head(d: InputSceneView, cfg: AnalyzerConfig)
    ensures
        forall|t: Seq<char>|
            #[trigger] occ_tok(input_lexemes(d, cfg), t) >= occ_tok(lexemes_of(d.name, cfg), t),
{
    let ts = input_texts(d);
    assert(ts[0] == d.name);
    assert(input_lexemes(d, cfg) == lexemes_of(d.name, cfg) + texts_lexemes(
        ts.drop_first(),
        cfg,
    ));
    assert forall|t: Seq<char>|
        #[trigger] occ_tok(input_lexemes(d, cfg), t) >= occ_tok(lexemes_of(d.name, cfg), t) by {
        lemma_occ_concat(lexemes_of(d.name, cfg), texts_lexemes(ts.drop_first(), cfg), t);
    }
}

/// The ingest-then-search round trip: after ingesting a document whose
/// name yields at least one lexeme, a search for that name has the document
/// in its result set with a nonzero score, and the first page of the
/// unfiltered, unsorted search returns its external id.
pub proof fn lemma_ingest_search_round_trip(
    rs: Seq<RecordView>,
    next: u64,
    d: InputSceneView,
    cfg: AnalyzerConfig,
    take: int,
)
    requires
        store_wf(rs, next),
        next < u64::MAX,
        lexemes_of(d.name, cfg).len() > 0,
        take >= ingest_seq(rs, next, seq![d], cfg).0.len(),
    ensures
        ({
            let rs1 = ingest_seq(rs, next, seq![d], cfg).0;
            let hits = search_filtered(rs1, d.name, cfg, no_filters());
            exists|j: int|
                0 <= j < hits.len() && (#[trigger] hits[j]).1.doc.id == d.id && hits[j].0 > 0
        }),
        ({
            let rs1 = ingest_seq(rs, next, seq![d], cfg).0;
            search_items(rs1, d.name, cfg, no_filters(), None, false, 0, take).contains(d.id)
        }),
{
    assert(seq![d][0] == d);
    assert(seq![d].drop_first() =~= Seq::<InputSceneView>::empty());
    let rs1 = ingest_one_recs(rs, next, d, cfg);
    assert(ingest_seq(rs, next, seq![d], cfg) == ingest_seq(
        rs1,
        (next + 1) as u64,
        seq![d].drop_first(),
        cfg,
    ));
    assert(ingest_seq(rs1, (next + 1) as u64, Seq::<InputSceneView>::empty(), cfg) == ((
        rs1,
        (next + 1) as u64,
    )));
    assert(ingest_seq(rs, next, seq![d], cfg).0 == rs1);
    lemma_ingest_one_wf(rs, next, d, cfg);
    let newrec = rs1.last();
    let qlex = lexemes_of(d.name, cfg);
    let score = query_score(qlex, newrec.lex);
    assert(score >= occ_tok(newrec.lex, qlex.last())) by {
        assert(query_score(qlex, newrec.lex) == query_score(qlex.drop_last(), newrec.lex)
            + occ_tok(newrec.lex, qlex.last()));
    }
    lemma_input_lexemes_head(d, cfg);
    lemma_occ_contains(qlex, qlex.last());
    assert(qlex.contains(qlex.last())) by {
        assert(qlex[qlex.len() - 1] == qlex.last());
    }
    assert(occ_tok(qlex, qlex.last()) >= 1);
    assert(occ_tok(newrec.lex, qlex.last()) >= occ_tok(qlex, qlex.last()));
    assert(score > 0);
    let raw = score_pairs_of(rs1, qlex);
    let kn = rs1.len() - 1;
    assert(raw[kn] == ((query_score(qlex, rs1[kn].lex), rs1[kn])));
    assert(raw[kn].0 == score);
    lemma_positive_contains(raw, kn);
    lemma_sort_spec_contains(Order::ScoreDesc, positive(raw));
    let cands = candidates(rs1, qlex);
    assert(cands.contains(raw[kn]));
    lemma_filter_none(cands);
    let hits = search_filtered(rs1, d.name, cfg, no_filters());
    assert(hits == cands);
    let j = choose|j: int| 0 <= j < hits.len() && hits[j] == raw[kn];
    assert(hits[j].1.doc.id == d.id);
    assert(hits[j].0 > 0);
    // the unfiltered, unsorted first page of at least the full length
    let ord = ordered_cands(hits, None, false);
    assert(ord == hits);
    let page = page_of(ord, 0, take);
    assert(page =~= ord);
    let items = search_items(rs1, d.name, cfg, no_filters(), None, false, 0, take);
    assert(items[j] == page[j].1.doc.id);
    assert(items[j] == d.id);
}

/// No search with at least one query lexeme returns an external id whose
/// live record shares no lexeme with the query.
pub proof fn lemma_no_match_not_returned(
    rs: Seq<RecordView>,
    next: u64,
    q: Seq<char>,
    cfg: AnalyzerConfig,
    f: SearchFiltersView,
    sort_by: Option<SortKey>,
    asc: bool,
    skip: int,
    take: int,
    e: Seq<char>,
)
    requires
        store_wf(rs, next),
        lexemes_of(q, cfg).len() > 0,
        forall|k: int, j: int|
            0 <= k < rs.len() && (#[trigger] rs[k]).doc.id == e && 0 <= j < lexemes_of(
                q,
                cfg,
            ).len() ==> !rs[k].lex.contains(#[trigger] lexemes_of(q, cfg)[j]),
        0 <= skip,
        0 <= take,
    ensures
        !search_items(rs, q, cfg, f, sort_by, asc, skip, take).contains(e),
{
    let items = search_items(rs, q, cfg, f, sort_by, asc, skip, take);
    let qlex = lexemes_of(q, cfg);
    if items.contains(e) {
        let j = choose|j: int| 0 <= j < items.len() && items[j] == e;
        let page = search_page(rs, q, cfg, f, sort_by, asc, skip, take);
        assert(page[j].1.doc.id == e);
        lemma_page_from_filtered(rs, q, cfg, f, sort_by, asc, skip, take, j);
        lemma_filtered_member(rs, q, cfg, f, page[j]);
        lemma_candidate_member(rs, qlex, page[j]);
        let k = choose|k: int|
            0 <= k < rs.len() && #[trigger] rs[k] == page[j].1 && page[j].0 == query_score(
                qlex,
                rs[k].lex,
            );
        assert(rs[k].doc.id == e);
        assert(forall|l: int| 0 <= l < qlex.len() ==> !rs[k].lex.contains(#[trigger] qlex[l]));
        lemma_query_score_zero(qlex, rs[k].lex);
        assert(page[j].0 == 0);
    }
}

/// Updating retracts the old postings: ingest a document, then update it
/// under the same external id with content that shares no lexeme with the
/// old name; a search for the old name no longer returns the external id.
/// (When the old name yields no lexemes at all, the search is an empty
/// query and returns every document, so that case is excluded.)
pub proof fn lemma_update_retracts(
    rs: Seq<RecordView>,
    next: u64,
    d: InputSceneView,
    d2: InputSceneView,
    cfg: AnalyzerConfig,
    f: SearchFiltersView,
    sort_by: Option<SortKey>,
    asc: bool,
    skip: int,
    take: int,
)
    requires
        store_wf(rs, next),
        next < u64::MAX,
        d2.id == d.id,
        lexemes_of(d.name, cfg).len() > 0,
        forall|j: int|
            0 <= j < lexemes_of(d.name, cfg).len() ==> !input_lexemes(d2, cfg).contains(
                #[trigger] lexemes_of(d.name, cfg)[j],
            ),
        0 <= skip,
        0 <= take,
    ensures
        ({
            let rs1 = ingest_seq(rs, next, seq![d], cfg).0;
            let p = pos_of_ext(rs1, d.id);
            let rs2 = rs1.update(
                p,
                (RecordView {
                    doc: stored_of(d2),
                    internal_id: rs1[p].internal_id,
                    lex: input_lexemes(d2, cfg),
                }),
            );
            !search_items(rs2, d.name, cfg, f, sort_by, asc, skip, take).contains(d.id)
        }),
{
    assert(seq![d][0] == d);
    assert(seq![d].drop_first() =~= Seq::<InputSceneView>::empty());
    let rs1 = ingest_one_recs(rs, next, d, cfg);
    assert(ingest_seq(rs, next, seq![d], cfg) == ingest_seq(
        rs1,
        (next + 1) as u64,
        seq![d].drop_first(),
        cfg,
    ));
    assert(ingest_seq(rs1, (next + 1) as u64, Seq::<InputSceneView>::empty(), cfg) == ((
        rs1,
        (next + 1) as u64,
    )));
    assert(ingest_seq(rs, next, seq![d], cfg).0 == rs1);
    lemma_ingest_one_wf(rs, next, d, cfg);
    crate::store::lemma_pos_of_ext(rs1, d.id);
    assert(has_ext(rs1, d.id)) by {
        assert(rs1[rs1.len() - 1].doc.id == d.id);
    }
    let p = pos_of_ext(rs1, d.id);
    let newrec = RecordView {
        doc: stored_of(d2),
        internal_id: rs1[p].internal_id,
        lex: input_lexemes(d2, cfg),
    };
    let rs2 = rs1.update(p, newrec);
    let n1 = (next + 1) as u64;
    assert(store_wf(rs2, n1)) by {
        assert(forall|j: int| 0 <= j < rs1.len() && j != p ==> #[trigger] rs2[j] == rs1[j]);
        assert(rs2[p].internal_id == rs1[p].internal_id);
        assert(rs2[p].doc.id == d.id);
        assert(rs1[p].doc.id == d.id);
        assert(forall|j: int|
            0 <= j < rs2.len() ==> (#[trigger] rs2[j]).internal_id == rs1[j].internal_id);
        assert(forall|j: int| 0 <= j < rs2.len() ==> (#[trigger] rs2[j]).doc.id == rs1[j].doc.id);
    }
    assert forall|k: int, j: int|
        0 <= k < rs2.len() && (#[trigger] rs2[k]).doc.id == d.id && 0 <= j < lexemes_of(
            d.name,
            cfg,
        ).len() implies !rs2[k].lex.contains(#[trigger] lexemes_of(d.name, cfg)[j]) by {
        if k != p {
            assert(rs2[k] == rs1[k]);
            assert(rs1[k].doc.id != d.id);
        } else {
            assert(rs2[k].lex == input_lexemes(d2, cfg));
        }
    }
    lemma_no_match_not_returned(rs2, n1, d.name, cfg, f, sort_by, asc, skip, take, d.id);
}

/// Deletion retracts completely: after a document's postings are
/// retracted, no posting list — in particular none of its name's lexemes'
/// — contains its internal id.
pub proof fn lemma_delete_completeness(idx: IndexView, i: u64, t: Seq<char>)
    ensures
        !plist(retract_all(idx, i), t).contains(i),
{
    lemma_retract_sem(idx, i);
    assert(plist(retract_all(idx, i), t) == drop_id(plist(idx, t), i));
    assert(crate::index::pcount(retract_all(idx, i), t, i) == 0);
    assert(count64(plist(retract_all(idx, i), t), i) == 0);
    lemma_count64_zero(plist(retract_all(idx, i), t), i);
}

/// The include and exclude filters conjoin: every document on a returned
/// page references every id of the include list and none of the exclude
/// list, whatever the query, sort and pagination.
pub proof fn lemma_filter_conjunction(
    rs: Seq<RecordView>,
    q: Seq<char>,
    cfg: AnalyzerConfig,
    f: SearchFiltersView,
    sort_by: Option<SortKey>,
    asc: bool,
    skip: int,
    take: int,
    j: int,
)
    requires
        0 <= skip,
        0 <= take,
        0 <= j < search_page(rs, q, cfg, f, sort_by, asc, skip, take).len(),
    ensures
        ({
            let doc = search_page(rs, q, cfg, f, sort_by, asc, skip, take)[j].1.doc;
            &&& forall|l: int|
                0 <= l < f.include_labels.len() ==> doc.labels.contains(
                    #[trigger] f.include_labels[l],
                )
            &&& forall|l: int|
                0 <= l < f.exclude_labels.len() ==> !doc.labels.contains(
                    #[trigger] f.exclude_labels[l],
                )
        }),
{
    lemma_page_from_filtered(rs, q, cfg, f, sort_by, asc, skip, take, j);
    lemma_filtered_member(
        rs,
        q,
        cfg,
        f,
        search_page(rs, q, cfg, f, sort_by, asc, skip, take)[j],
    );
}

/// Without an explicit sort attribute, a non-empty query's candidates come
/// in non-increasing score order.
pub proof fn lemma_relevance_order_desc(rs: Seq<RecordView>, qlex: Seq<Seq<char>>)
    requires
        qlex.len() > 0,
    ensures
        forall|i: int, j: int|
            0 <= i < j < candidates(rs, qlex).len() ==> (#[trigger] candidates(rs, qlex)[i]).0 >= (
            #[trigger] candidates(rs, qlex)[j]).0,
{
    crate::pipeline::lemma_sort_spec_sorted(Order::ScoreDesc, positive(score_pairs_of(rs, qlex)));
    let cs = candidates(rs, qlex);
    assert forall|i: int, j: int| 0 <= i < j < cs.len() implies (#[trigger] cs[i]).0 >= (
    #[trigger] cs[j]).0 by {
        assert(crate::pipeline::pair_le(Order::ScoreDesc, cs[i], cs[j]));
    }
}

/// Score ties respect ascending internal id throughout a candidate list.
pub open spec fn ties_ascending(s: Seq<ScoredRec>) -> bool {
    forall|i: int, j: int|
        0 <= i < j < s.len() && (#[trigger] s[i]).0 == (#[trigger] s[j]).0 ==> s[i].1.internal_id
            < s[j].1.internal_id
}

proof fn lemma_positive_ids_increasing(s: Seq<ScoredRec>)
    requires
        forall|i: int, j: int|
            0 <= i < j < s.len() ==> (#[trigger] s[i]).1.internal_id < (
            #[trigger] s[j]).1.internal_id,
    ensures
        forall|i: int, j: int|
            0 <= i < j < positive(s).len() ==> (#[trigger] positive(s)[i]).1.internal_id < (
            #[trigger] positive(s)[j]).1.internal_id,
    decreases s.len(),
{
    if s.len() > 0 {
        assert(forall|i: int, j: int|
            0 <= i < j < s.drop_last().len() ==> (#[trigger] s.drop_last()[i]).1.internal_id < (
            #[trigger] s.drop_last()[j]).1.internal_id);
        lemma_positive_ids_increasing(s.drop_last());
        lemma_positive_members(s.drop_last());
        lemma_positive_step(s);
        let sub = positive(s.drop_last());
        assert forall|i: int, j: int|
            0 <= i < j < positive(s).len() implies (#[trigger] positive(s)[i]).1.internal_id < (
            #[trigger] positive(s)[j]).1.internal_id by {
            if j < sub.len() {
                assert(positive(s)[i] == sub[i] && positive(s)[j] == sub[j]);
            } else {
                assert(positive(s)[j] == s.last());
                assert(positive(s)[i] == sub[i]);
                assert(s.drop_last().contains(sub[i]));
                let k = choose|k: int|
                    0 <= k < s.drop_last().len() && s.drop_last()[k] == sub[i];
                assert(s[k] == sub[i]);
                assert(s[s.len() - 1] == s.last());
            }
        }
    }
}

proof fn lemma_sort_keeps_ties_ascending(s: Seq<ScoredRec>)
    requires
        ties_ascending(s),
    ensures
        ties_ascending(sort_spec(Order::ScoreDesc, s)),
    decreases s.len(),
{
    let ord = Order::ScoreDesc;
    if s.len() > 0 {
        let s0 = s.drop_last();
        let x = s.last();
        assert(ties_ascending(s0)) by {
            assert(forall|i: int, j: int|
                0 <= i < j < s0.len() ==> #[trigger] s0[i] == s[i] && #[trigger] s0[j] == s[j]);
        }
        lemma_sort_keeps_ties_ascending(s0);
        lemma_sort_spec_sorted_scoredesc(s0);
        crate::pipeline::lemma_sort_spec_contains(ord, s0);
        let t = sort_spec(ord, s0);
        let p = crate::pipeline::insert_pos(ord, t, x);
        crate::pipeline::lemma_insert_pos_bounds(ord, t, x);
        let out = t.insert(p, x);
        t.insert_ensures(p, x);
        assert forall|i: int, j: int|
            0 <= i < j < out.len() && (#[trigger] out[i]).0 == (#[trigger] out[j]).0 implies
            out[i].1.internal_id < out[j].1.internal_id by {
            if i < p && j == p {
                // an earlier element with the same score as x comes from s0
                assert(out[i] == t[i] && out[j] == x);
                assert(t.contains(t[i]));
                assert(s0.contains(t[i]));
                let k = choose|k: int| 0 <= k < s0.len() && s0[k] == t[i];
                assert(s[k] == t[i]);
                assert(s[s.len() - 1] == x);
            } else if i == p {
                // everything placed after x has a strictly smaller score
                assert(out[i] == x);
                assert(out[j] == t[j - 1]);
                assert(p < t.len());
                assert(!crate::pipeline::pair_le(ord, t[p], x));
                if j - 1 > p {
                    assert(crate::pipeline::pair_le(ord, t[p], t[j - 1]));
                }
                assert(t[j - 1].0 < x.0);
                assert(false);
            } else if i < p && j > p {
                assert(out[i] == t[i] && out[j] == t[j - 1]);
                assert(i < j - 1);
            } else if j < p {
                assert(out[i] == t[i] && out[j] == t[j]);
            } else {
                assert(out[i] == t[i - 1] && out[j] == t[j - 1]);
            }
        }
    }
}

proof fn lemma_sort_spec_sorted_scoredesc(s: Seq<ScoredRec>)
    ensures
        forall|i: int, j: int|
            0 <= i < j < sort_spec(Order::ScoreDesc, s).len() ==> crate::pipeline::pair_le(
                Order::ScoreDesc,
                #[trigger] sort_spec(Order::ScoreDesc, s)[i],
                #[trigger] sort_spec(Order::ScoreDesc, s)[j],
            ),
{
    crate::pipeline::lemma_sort_spec_sorted(Order::ScoreDesc, s);
}

/// Relevance ties keep insertion order: two candidates with the same score
/// appear in ascending internal-id order, which is the order documents
/// entered the store.
pub proof fn lemma_relevance_ties_ascending(rs: Seq<RecordView>, next: u64, qlex: Seq<Seq<char>>)
    requires
        store_wf(rs, next),
        qlex.len() > 0,
    ensures
        ties_ascending(candidates(rs, qlex)),
{
    let raw = score_pairs_of(rs, qlex);
    assert(forall|i: int, j: int|
        0 <= i < j < raw.len() ==> (#[trigger] raw[i]).1.internal_id < (
        #[trigger] raw[j]).1.internal_id) by {
        assert(forall|k: int| 0 <= k < raw.len() ==> (#[trigger] raw[k]).1 == rs[k]);
    }
    lemma_positive_ids_increasing(raw);
    assert(ties_ascending(positive(raw)));
    lemma_sort_keeps_ties_ascending(positive(raw));
}

/// With an explicit sort attribute, the ascending result is pairwise
/// ordered by that attribute, and the default (descending) result is its
/// exact reverse.
pub proof fn lemma_attribute_sort_order(cs: Seq<ScoredRec>, k: SortKey)
    ensures
        crate::pipeline::sorted_by(Order::Attr(k), ordered_cands(cs, Some(k), true)),
        ordered_cands(cs, Some(k), false) == ordered_cands(cs, Some(k), true).reverse(),
{
    crate::pipeline::lemma_sort_spec_sorted(Order::Attr(k), cs);
}

/// Two consecutive pages fit together into one longer page: no overlap and
/// no gap.
pub proof fn lemma_page_partition(s: Seq<ScoredRec>, skip: int, t1: int, t2: int)
    requires
        0 <= skip,
        0 <= t1,
        0 <= t2,
    ensures
        page_of(s, skip, t1) + page_of(s, skip + t1, t2) == page_of(s, skip, t1 + t2),
{
    assert(page_of(s, skip, t1) + page_of(s, skip + t1, t2) =~= page_of(s, skip, t1 + t2));
}

/// Pagination is stable: on an unchanged collection, the page of the
/// first `t1` results followed by the page of the next `t2` results is
/// exactly the first page of `t1 + t2` results — a partition with no
/// overlap and no gaps.
pub proof fn lemma_search_pagination(
    rs: Seq<RecordView>,
    q: Seq<char>,
    cfg: AnalyzerConfig,
    f: SearchFiltersView,
    sort_by: Option<SortKey>,
    asc: bool,
    t1: int,
    t2: int,
)
    requires
        0 <= t1,
        0 <= t2,
    ensures
        search_items(rs, q, cfg, f, sort_by, asc, 0, t1) + search_items(
            rs,
            q,
            cfg,
            f,
            sort_by,
            asc,
            t1,
            t2,
        ) == search_items(rs, q, cfg, f, sort_by, asc, 0, t1 + t2),
{
    lemma_page_partition(ordered_cands(search_filtered(rs, q, cfg, f), sort_by, asc), 0, t1, t2);
    let a = search_page(rs, q, cfg, f, sort_by, asc, 0, t1);
    let b = search_page(rs, q, cfg, f, sort_by, asc, t1, t2);
    let c = search_page(rs, q, cfg, f, sort_by, asc, 0, t1 + t2);
    assert(a + b == c);
    let g = |p: ScoredRec| p.1.doc.id;
    assert((a + b).map_values(g) =~= a.map_values(g) + b.map_values(g));
}

} // verus!
