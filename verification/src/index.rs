//! The inverted index: a mapping from lexeme to the ordered posting list of
//! internal document identifiers whose indexed text produced that lexeme.
//!
//! An internal id may appear more than once in a posting list when several
//! source fields of the same document produce the same lexeme; the
//! duplication is intentional and increases the document's score.

use vstd::prelude::*;

use crate::analyzer::{lexemes_of, tokenize, views_of, AnalyzerConfig};
use crate::document::{
    alias_join, alias_texts, alias_views, lemma_list_texts_empty, lemma_list_texts_snoc,
    lemma_texts_lexemes_pair, list_texts, texts_lexemes, Aliasable, AliasableView,
};
use crate::text::{chars_eq, join_all, str_views};

verus! {

/// The model of the index: the entries in insertion order, each a lexeme
/// with its posting list.
pub type IndexView = Seq<(Seq<char>, Seq<u64>)>;

/// The lexemes of the index, in insertion order.
pub open spec fn tokens_of(idx: IndexView) -> Seq<Seq<char>> {
    idx.map_values(|e: (Seq<char>, Seq<u64>)| e.0)
}

/// Whether the index has an entry for `t`.
pub open spec fn has_token(idx: IndexView, t: Seq<char>) -> bool {
    exists|k: int| 0 <= k < idx.len() && (#[trigger] idx[k]).0 == t
}

/// The posting list of `t`: the list of its first entry, or empty when the
/// index has no entry for `t`.
pub open spec fn plist(idx: IndexView, t: Seq<char>) -> Seq<u64>
    decreases idx.len(),
{
    if idx.len() == 0 {
        Seq::empty()
    } else if idx[0].0 == t {
        idx[0].1
    } else {
        plist(idx.drop_first(), t)
    }
}

/// How many times `x` occurs in `s`.
pub open spec fn count64(s: Seq<u64>, x: u64) -> nat
    decreases s.len(),
{
    if s.len() == 0 {
        0
    } else {
        count64(s.drop_last(), x) + (if s.last() == x {
            1nat
        } else {
            0nat
        })
    }
}

/// How many times the internal id `i` occurs in the posting list of `t`.
pub open spec fn pcount(idx: IndexView, t: Seq<char>, i: u64) -> nat {
    count64(plist(idx, t), i)
}

/// How many times the lexeme `t` occurs in a lexeme sequence.
pub open spec fn occ_tok(ls: Seq<Seq<char>>, t: Seq<char>) -> nat
    decreases ls.len(),
{
    if ls.len() == 0 {
        0
    } else {
        occ_tok(ls.drop_last(), t) + (if ls.last() == t {
            1nat
        } else {
            0nat
        })
    }
}

/// Well-formedness: no lexeme has two entries.
pub open spec fn index_wf(idx: IndexView) -> bool {
    forall|k: int, l: int| 0 <= k < l < idx.len() ==> (#[trigger] idx[k]).0 != (#[trigger] idx[l]).0
}

/// One posting appended: the first entry for `t` gains `id` at the end of
/// its list; when there is none, a new entry is appended.
pub open spec fn add_one(idx: IndexView, t: Seq<char>, id: u64) -> IndexView
    decreases idx.len(),
{
    if idx.len() == 0 {
        seq![(t, seq![id])]
    } else if idx[0].0 == t {
        seq![(idx[0].0, idx[0].1.push(id))] + idx.drop_first()
    } else {
        seq![idx[0]] + add_one(idx.drop_first(), t, id)
    }
}

/// A sequence of lexemes registered in order against one internal id.
pub open spec fn add_all(idx: IndexView, ls: Seq<Seq<char>>, id: u64) -> IndexView
    decreases ls.len(),
{
    if ls.len() == 0 {
        idx
    } else {
        add_all(add_one(idx, ls[0], id), ls.drop_first(), id)
    }
}

/// A posting list with every occurrence of `id` removed.
pub open spec fn drop_id(s: Seq<u64>, id: u64) -> Seq<u64> {
    s.filter(|y: u64| y != id)
}

/// Every occurrence of `id` removed from every posting list; entries are
/// kept, possibly with empty lists.
pub open spec fn retract_all(idx: IndexView, id: u64) -> IndexView {
    idx.map_values(|e: (Seq<char>, Seq<u64>)| (e.0, drop_id(e.1, id)))
}

/// The total number of postings over all entries.
pub open spec fn total_postings(idx: IndexView) -> nat
    decreases idx.len(),
{
    if idx.len() == 0 {
        0
    } else {
        total_postings(idx.drop_last()) + idx.last().1.len()
    }
}

pub proof fn lemma_has_token_contains(idx: IndexView, t: Seq<char>)
    ensures
        has_token(idx, t) <==> tokens_of(idx).contains(t),
{
    if has_token(idx, t) {
        let k = choose|k: int| 0 <= k < idx.len() && (#[trigger] idx[k]).0 == t;
        assert(tokens_of(idx)[k] == t);
    }
    if tokens_of(idx).contains(t) {
        let k = choose|k: int| 0 <= k < tokens_of(idx).len() && tokens_of(idx)[k] == t;
        assert(idx[k].0 == t);
    }
}

pub proof fn lemma_plist_found(idx: IndexView, t: Seq<char>, k: int)
    requires
        0 <= k < idx.len(),
        idx[k].0 == t,
        forall|j: int| 0 <= j < k ==> (#[trigger] idx[j]).0 != t,
    ensures
        plist(idx, t) == idx[k].1,
    decreases k,
{
    if k > 0 {
        assert(idx.drop_first()[k - 1] == idx[k]);
        assert(forall|j: int| 0 <= j < k - 1 ==> (#[trigger] idx.drop_first()[j]).0 != t);
        lemma_plist_found(idx.drop_first(), t, k - 1);
    }
}

pub proof fn lemma_plist_absent(idx: IndexView, t: Seq<char>)
    requires
        !has_token(idx, t),
    ensures
        plist(idx, t) == Seq::<u64>::empty(),
    decreases idx.len(),
{
    if idx.len() > 0 {
        assert(idx[0].0 != t);
        assert(!has_token(idx.drop_first(), t)) by {
            if has_token(idx.drop_first(), t) {
                let k = choose|k: int|
                    0 <= k < idx.drop_first().len() && (#[trigger] idx.drop_first()[k]).0 == t;
                assert(idx[k + 1].0 == t);
            }
        }
        lemma_plist_absent(idx.drop_first(), t);
    }
}

proof fn lemma_add_one_found(idx: IndexView, t: Seq<char>, id: u64, k: int)
    requires
        0 <= k < idx.len(),
        idx[k].0 == t,
        forall|j: int| 0 <= j < k ==> (#[trigger] idx[j]).0 != t,
    ensures
        add_one(idx, t, id) == idx.update(k, (idx[k].0, idx[k].1.push(id))),
    decreases k,
{
    if k == 0 {
        assert(add_one(idx, t, id) =~= idx.update(0, (idx[0].0, idx[0].1.push(id))));
    } else {
        assert(idx[0].0 != t);
        assert(idx.drop_first()[k - 1] == idx[k]);
        assert(forall|j: int| 0 <= j < k - 1 ==> (#[trigger] idx.drop_first()[j]).0 != t);
        lemma_add_one_found(idx.drop_first(), t, id, k - 1);
        assert(seq![idx[0]] + idx.drop_first().update(k - 1, (idx[k].0, idx[k].1.push(id)))
            =~= idx.update(k, (idx[k].0, idx[k].1.push(id))));
    }
}

proof fn lemma_add_one_absent(idx: IndexView, t: Seq<char>, id: u64)
    requires
        !has_token(idx, t),
    ensures
        add_one(idx, t, id) == idx.push((t, seq![id])),
    decreases idx.len(),
{
    if idx.len() == 0 {
        assert(add_one(idx, t, id) =~= idx.push((t, seq![id])));
    } else {
        assert(idx[0].0 != t);
        assert(!has_token(idx.drop_first(), t)) by {
            if has_token(idx.drop_first(), t) {
                let k = choose|k: int|
                    0 <= k < idx.drop_first().len() && (#[trigger] idx.drop_first()[k]).0 == t;
                assert(idx[k + 1].0 == t);
            }
        }
        lemma_add_one_absent(idx.drop_first(), t, id);
        assert(seq![idx[0]] + idx.drop_first().push((t, seq![id])) =~= idx.push((t, seq![id])));
    }
}

/// What one appended posting means for every lexeme's posting list, for the
/// lexeme order, and for well-formedness.
pub proof fn lemma_add_one_sem(idx: IndexView, t: Seq<char>, id: u64)
    requires
        index_wf(idx),
    ensures
        index_wf(add_one(idx, t, id)),
        plist(add_one(idx, t, id), t) == plist(idx, t).push(id),
        forall|u: Seq<char>| u != t ==> plist(add_one(idx, t, id), u) == plist(idx, u),
        tokens_of(add_one(idx, t, id)) == if has_token(idx, t) {
            tokens_of(idx)
        } else {
            tokens_of(idx).push(t)
        },
    decreases idx.len(),
{
    if idx.len() == 0 {
        assert(plist(add_one(idx, t, id), t) =~= plist(idx, t).push(id));
        assert forall|u: Seq<char>| u != t implies plist(add_one(idx, t, id), u) == plist(
            idx,
            u,
        ) by {
            let new = add_one(idx, t, id);
            assert(new[0].0 == t);
            assert(new.drop_first() =~= Seq::<(Seq<char>, Seq<u64>)>::empty());
            assert(plist(new, u) == plist(new.drop_first(), u));
        }
        assert(tokens_of(add_one(idx, t, id)) =~= tokens_of(idx).push(t));
    } else if idx[0].0 == t {
        let new = add_one(idx, t, id);
        assert(new =~= seq![(idx[0].0, idx[0].1.push(id))] + idx.drop_first());
        assert(plist(new, t) == idx[0].1.push(id));
        assert(forall|u: Seq<char>| u != t ==> plist(new, u) == plist(idx, u)) by {
            assert(forall|u: Seq<char>| u != t ==> plist(new, u) == plist(
                new.drop_first(),
                u,
            ));
            assert(new.drop_first() =~= idx.drop_first());
        }
        assert(tokens_of(new) =~= tokens_of(idx));
        assert(has_token(idx, t));
        assert(forall|k: int, l: int|
            0 <= k < l < new.len() ==> (#[trigger] new[k]).0 != (#[trigger] new[l]).0) by {
            assert(forall|k: int| 0 <= k < new.len() ==> (#[trigger] new[k]).0 == idx[k].0);
        }
    } else {
        let new = add_one(idx, t, id);
        let sub = add_one(idx.drop_first(), t, id);
        assert(new == seq![idx[0]] + sub);
        assert(index_wf(idx.drop_first())) by {
            assert(forall|k: int, l: int|
                0 <= k < l < idx.drop_first().len() ==> (#[trigger] idx.drop_first()[k]).0 != (
                #[trigger] idx.drop_first()[l]).0) by {
                assert(forall|k: int|
                    0 <= k < idx.drop_first().len() ==> #[trigger] idx.drop_first()[k] == idx[k
                        + 1]);
            }
        }
        lemma_add_one_sem(idx.drop_first(), t, id);
        assert(new[0] == idx[0]);
        assert(new.drop_first() =~= sub);
        assert(plist(new, t) == plist(sub, t));
        assert(plist(idx, t) == plist(idx.drop_first(), t));
        assert(forall|u: Seq<char>| u != t ==> plist(new, u) == plist(idx, u)) by {
            assert(forall|u: Seq<char>|
                u != t && u != idx[0].0 ==> plist(new, u) == plist(sub, u) && plist(idx, u)
                    == plist(idx.drop_first(), u));
            assert(plist(new, idx[0].0) == idx[0].1);
            assert(plist(idx, idx[0].0) == idx[0].1);
        }
        // the lexeme order and well-formedness
        lemma_has_token_contains(idx, t);
        lemma_has_token_contains(idx.drop_first(), t);
        assert(has_token(idx, t) <==> has_token(idx.drop_first(), t)) by {
            if has_token(idx, t) {
                let k = choose|k: int| 0 <= k < idx.len() && (#[trigger] idx[k]).0 == t;
                assert(k > 0);
                assert(idx.drop_first()[k - 1].0 == t);
            }
            if has_token(idx.drop_first(), t) {
                let k = choose|k: int|
                    0 <= k < idx.drop_first().len() && (#[trigger] idx.drop_first()[k]).0 == t;
                assert(idx[k + 1].0 == t);
            }
        }
        if has_token(idx, t) {
            assert(tokens_of(new) =~= tokens_of(idx)) by {
                assert(tokens_of(sub) == tokens_of(idx.drop_first()));
                assert(forall|k: int|
                    1 <= k < new.len() ==> (#[trigger] new[k]) == sub[k - 1]);
                assert(forall|k: int|
                    1 <= k < idx.len() ==> (#[trigger] idx[k]) == idx.drop_first()[k - 1]);
                assert(forall|k: int|
                    1 <= k < new.len() ==> tokens_of(new)[k] == tokens_of(sub)[k - 1]);
            }
        } else {
            assert(tokens_of(sub) == tokens_of(idx.drop_first()).push(t));
            assert forall|k: int| 0 <= k < new.len() implies tokens_of(new)[k] == tokens_of(
                idx,
            ).push(t)[k] by {
                assert(tokens_of(new)[k] == new[k].0);
                if k == 0 {
                    assert(new[0] == idx[0]);
                } else {
                    assert(new[k] == sub[k - 1]);
                    assert(tokens_of(sub)[k - 1] == sub[k - 1].0);
                    if k - 1 < idx.drop_first().len() {
                        assert(tokens_of(idx.drop_first()).push(t)[k - 1] == tokens_of(
                            idx.drop_first(),
                        )[k - 1]);
                        assert(tokens_of(idx.drop_first())[k - 1] == idx.drop_first()[k - 1].0);
                        assert(idx.drop_first()[k - 1] == idx[k]);
                        assert(tokens_of(idx).push(t)[k] == idx[k].0);
                    } else {
                        assert(tokens_of(sub)[k - 1] == t);
                        assert(k == new.len() - 1);
                        assert(tokens_of(idx).push(t)[k] == t);
                    }
                }
            }
            assert(tokens_of(new) =~= tokens_of(idx).push(t));
        }
        assert(index_wf(new)) by {
            assert(forall|k: int, l: int|
                1 <= k < l < new.len() ==> (#[trigger] new[k]).0 != (#[trigger] new[l]).0) by {
                assert(index_wf(sub));
                assert(forall|k: int|
                    1 <= k < new.len() ==> (#[trigger] new[k]).0 == tokens_of(sub)[k - 1]);
                assert(forall|k: int, l: int|
                    0 <= k < l < sub.len() ==> tokens_of(sub)[k] != tokens_of(sub)[l]);
            }
            assert(forall|l: int| 1 <= l < new.len() ==> new[0].0 != (#[trigger] new[l]).0) by {
                lemma_has_token_contains(idx.drop_first(), idx[0].0);
                assert(!has_token(idx.drop_first(), idx[0].0)) by {
                    if has_token(idx.drop_first(), idx[0].0) {
                        let k = choose|k: int|
                            0 <= k < idx.drop_first().len() && (#[trigger] idx.drop_first()[k]).0
                                == idx[0].0;
                        assert(idx[k + 1].0 == idx[0].0);
                    }
                }
                assert(forall|l: int|
                    1 <= l < new.len() ==> (#[trigger] new[l]).0 == tokens_of(sub)[l - 1]);
                assert(forall|j: int|
                    0 <= j < tokens_of(idx.drop_first()).len() ==> tokens_of(idx.drop_first())[j]
                        != idx[0].0);
            }
        }
    }
}

/// Appending one lexeme to a batch registers it after the batch.
pub proof fn lemma_add_all_snoc(idx: IndexView, ls: Seq<Seq<char>>, t: Seq<char>, id: u64)
    ensures
        add_all(idx, ls.push(t), id) == add_one(add_all(idx, ls, id), t, id),
    decreases ls.len(),
{
    if ls.len() == 0 {
        assert(ls.push(t)[0] == t);
        assert(ls.push(t).drop_first() =~= Seq::<Seq<char>>::empty());
        assert(add_all(idx, ls.push(t), id) == add_all(
            add_one(idx, t, id),
            ls.push(t).drop_first(),
            id,
        ));
        assert(add_all(add_one(idx, t, id), ls.push(t).drop_first(), id) == add_one(idx, t, id));
        assert(add_all(idx, ls, id) == idx);
    } else {
        assert(ls.push(t)[0] == ls[0]);
        assert(ls.push(t).drop_first() =~= ls.drop_first().push(t));
        lemma_add_all_snoc(add_one(idx, ls[0], id), ls.drop_first(), t, id);
        assert(add_all(idx, ls.push(t), id) == add_all(
            add_one(idx, ls[0], id),
            ls.drop_first().push(t),
            id,
        ));
        assert(add_all(idx, ls, id) == add_all(add_one(idx, ls[0], id), ls.drop_first(), id));
    }
}

/// Registering a concatenation is registering the parts in turn.
pub proof fn lemma_add_all_concat(idx: IndexView, a: Seq<Seq<char>>, b: Seq<Seq<char>>, id: u64)
    ensures
        add_all(idx, a + b, id) == add_all(add_all(idx, a, id), b, id),
    decreases a.len(),
{
    if a.len() == 0 {
        assert(a + b =~= b);
    } else {
        assert((a + b)[0] == a[0]);
        assert((a + b).drop_first() =~= a.drop_first() + b);
        lemma_add_all_concat(add_one(idx, a[0], id), a.drop_first(), b, id);
    }
}

proof fn lemma_count_push(s: Seq<u64>, x: u64, y: u64)
    ensures
        count64(s.push(x), y) == count64(s, y) + (if x == y {
            1nat
        } else {
            0nat
        }),
{
    assert(s.push(x).drop_last() =~= s);
    assert(s.push(x).last() == x);
}

/// What registering a lexeme batch for one internal id means for every
/// posting count and for which lexemes the index has.
pub proof fn lemma_add_all_sem(idx: IndexView, ls: Seq<Seq<char>>, id: u64)
    requires
        index_wf(idx),
    ensures
        index_wf(add_all(idx, ls, id)),
        forall|t: Seq<char>, i: u64|
            pcount(add_all(idx, ls, id), t, i) == pcount(idx, t, i) + (if i == id {
                occ_tok(ls, t)
            } else {
                0nat
            }),
        forall|t: Seq<char>|
            has_token(add_all(idx, ls, id), t) <==> has_token(idx, t) || ls.contains(t),
    decreases ls.len(),
{
    if ls.len() == 0 {
        assert(forall|t: Seq<char>, i: u64|
            pcount(add_all(idx, ls, id), t, i) == pcount(idx, t, i) + (if i == id {
                occ_tok(ls, t)
            } else {
                0nat
            }));
        assert(forall|t: Seq<char>| !ls.contains(t));
    } else {
        let ls0 = ls.drop_last();
        let x = ls.last();
        assert(ls =~= ls0.push(x));
        lemma_add_all_snoc(idx, ls0, x, id);
        lemma_add_all_sem(idx, ls0, id);
        let mid = add_all(idx, ls0, id);
        let new = add_all(idx, ls, id);
        assert(new == add_one(mid, x, id));
        lemma_add_one_sem(mid, x, id);
        assert forall|t: Seq<char>, i: u64|
            pcount(new, t, i) == pcount(idx, t, i) + (if i == id {
                occ_tok(ls, t)
            } else {
                0nat
            }) by {
            if t == x {
                assert(plist(new, t) == plist(mid, t).push(id));
                lemma_count_push(plist(mid, t), id, i);
                assert(pcount(new, t, i) == pcount(mid, t, i) + (if i == id {
                    1nat
                } else {
                    0nat
                }));
            } else {
                assert(plist(new, t) == plist(mid, t));
            }
            assert(pcount(mid, t, i) == pcount(idx, t, i) + (if i == id {
                occ_tok(ls0, t)
            } else {
                0nat
            }));
            assert(ls.drop_last() == ls0);
            assert(occ_tok(ls, t) == occ_tok(ls0, t) + (if x == t {
                1nat
            } else {
                0nat
            }));
        }
        assert forall|t: Seq<char>|
            has_token(new, t) <==> has_token(idx, t) || ls.contains(t) by {
            lemma_has_token_contains(mid, t);
            lemma_has_token_contains(new, t);
            assert(ls.contains(t) <==> ls0.contains(t) || x == t) by {
                if ls0.contains(t) {
                    let j = choose|j: int| 0 <= j < ls0.len() && ls0[j] == t;
                    assert(ls[j] == t);
                }
                if x == t {
                    assert(ls[ls.len() - 1] == t);
                }
                if ls.contains(t) {
                    let j = choose|j: int| 0 <= j < ls.len() && ls[j] == t;
                    if j < ls.len() - 1 {
                        assert(ls0[j] == t);
                    }
                }
            }
            if has_token(mid, t) {
                assert(tokens_of(new).contains(t)) by {
                    let j = choose|j: int|
                        0 <= j < tokens_of(mid).len() && tokens_of(mid)[j] == t;
                    assert(tokens_of(new)[j] == t);
                }
            }
            if t == x {
                assert(tokens_of(new).contains(t)) by {
                    if has_token(mid, x) {
                        lemma_has_token_contains(mid, x);
                    } else {
                        assert(tokens_of(new) == tokens_of(mid).push(x));
                        assert(tokens_of(new)[tokens_of(new).len() - 1] == x);
                    }
                }
            }
            if has_token(new, t) && !has_token(mid, t) && t != x {
                let j = choose|j: int|
                    0 <= j < tokens_of(new).len() && tokens_of(new)[j] == t;
                assert(tokens_of(new) == tokens_of(mid).push(x));
                if j < tokens_of(mid).len() {
                    assert(tokens_of(mid)[j] == t);
                    lemma_has_token_contains(mid, t);
                }
            }
        }
    }
}

/// One step of [`drop_id`], matching the recursion of [`count64`].
pub proof fn lemma_drop_id_step(s: Seq<u64>, id: u64)
    requires
        s.len() > 0,
    ensures
        drop_id(s, id) == if s.last() != id {
            drop_id(s.drop_last(), id).push(s.last())
        } else {
            drop_id(s.drop_last(), id)
        },
{
    reveal_with_fuel(Seq::<_>::filter, 2);
}

proof fn lemma_count_drop(s: Seq<u64>, id: u64, j: u64)
    ensures
        count64(drop_id(s, id), id) == 0,
        j != id ==> count64(drop_id(s, id), j) == count64(s, j),
    decreases s.len(),
{
    if s.len() == 0 {
        assert(drop_id(s, id) =~= Seq::<u64>::empty()) by {
            reveal_with_fuel(Seq::<_>::filter, 2);
        }
    } else {
        lemma_count_drop(s.drop_last(), id, j);
        lemma_drop_id_step(s, id);
        if s.last() != id {
            lemma_count_push(drop_id(s.drop_last(), id), s.last(), id);
            lemma_count_push(drop_id(s.drop_last(), id), s.last(), j);
        }
    }
}

/// What retracting an internal id means for every posting count: its own
/// counts drop to zero, all others are unchanged, and the lexeme order is
/// kept.
pub proof fn lemma_retract_sem(idx: IndexView, id: u64)
    ensures
        tokens_of(retract_all(idx, id)) == tokens_of(idx),
        forall|t: Seq<char>| #[trigger] plist(retract_all(idx, id), t) == drop_id(
            plist(idx, t),
            id,
        ),
        forall|t: Seq<char>, i: u64|
            #[trigger] pcount(retract_all(idx, id), t, i) == if i == id {
                0nat
            } else {
                pcount(idx, t, i)
            },
        index_wf(idx) ==> index_wf(retract_all(idx, id)),
    decreases idx.len(),
{
    let new = retract_all(idx, id);
    assert(tokens_of(new) =~= tokens_of(idx));
    if idx.len() == 0 {
        assert forall|t: Seq<char>| #[trigger] plist(new, t) == drop_id(plist(idx, t), id) by {
            assert(new =~= Seq::<(Seq<char>, Seq<u64>)>::empty());
            assert(plist(idx, t) =~= Seq::<u64>::empty());
            assert(drop_id(Seq::<u64>::empty(), id) =~= Seq::<u64>::empty()) by {
                reveal_with_fuel(Seq::<_>::filter, 2);
            }
        }
    } else {
        lemma_retract_sem(idx.drop_first(), id);
        assert forall|t: Seq<char>| #[trigger] plist(new, t) == drop_id(plist(idx, t), id) by {
            assert(new[0] == (idx[0].0, drop_id(idx[0].1, id)));
            assert(new.drop_first() =~= retract_all(idx.drop_first(), id));
            if idx[0].0 == t {
                assert(plist(new, t) == new[0].1);
            } else {
                assert(plist(new, t) == plist(new.drop_first(), t));
            }
        }
    }
    assert forall|t: Seq<char>, i: u64|
        #[trigger] pcount(new, t, i) == (if i == id {
            0nat
        } else {
            pcount(idx, t, i)
        }) by {
        lemma_count_drop(plist(idx, t), id, i);
    }
    if index_wf(idx) {
        assert(index_wf(new)) by {
            assert(forall|k: int| 0 <= k < new.len() ==> (#[trigger] new[k]).0 == idx[k].0);
        }
    }
}

/// The inverted index. Entries are kept in first-appearance order; each
/// lexeme has at most one entry.
pub struct InvertedIndex {
    entries: Vec<(Vec<char>, Vec<u64>)>,
}

impl View for InvertedIndex {
    type V = IndexView;

    closed spec fn view(&self) -> IndexView {
        self.entries@.map_values(|e: (Vec<char>, Vec<u64>)| (e.0@, e.1@))
    }
}

/// Count the occurrences of `id` in a posting list.
pub fn count_ids(v: &Vec<u64>, id: u64) -> (r: usize)
    ensures
        r == count64(v@, id),
{
    let mut c: usize = 0;
    let mut i: usize = 0;
    proof {
        assert(v@.take(0) =~= Seq::<u64>::empty());
    }
    while i < v.len()
        invariant
            i <= v.len(),
            c <= i,
            c == count64(v@.take(i as int), id),
        decreases v.len() - i,
    {
        proof {
            assert(v@.take(i + 1).drop_last() =~= v@.take(i as int));
            assert(v@.take(i + 1).last() == v@[i as int]);
        }
        if v[i] == id {
            c = c + 1;
        }
        i = i + 1;
    }
    proof {
        assert(v@.take(v@.len() as int) =~= v@);
    }
    c
}

/// A posting list with every occurrence of `id` removed.
fn filter_out(v: Vec<u64>, id: u64) -> (r: Vec<u64>)
    ensures
        r@ == drop_id(v@, id),
{
    let mut r: Vec<u64> = Vec::new();
    let mut i: usize = 0;
    proof {
        assert(v@.take(0) =~= Seq::<u64>::empty());
        assert(drop_id(v@.take(0), id) =~= Seq::<u64>::empty()) by {
            reveal_with_fuel(Seq::<_>::filter, 2);
        }
    }
    while i < v.len()
        invariant
            i <= v.len(),
            r@ == drop_id(v@.take(i as int), id),
        decreases v.len() - i,
    {
        proof {
            assert(v@.take(i + 1).drop_last() =~= v@.take(i as int));
            assert(v@.take(i + 1).last() == v@[i as int]);
            lemma_drop_id_step(v@.take(i + 1), id);
        }
        if v[i] != id {
            r.push(v[i]);
        }
        i = i + 1;
    }
    proof {
        assert(v@.take(v@.len() as int) =~= v@);
    }
    r
}

impl InvertedIndex {
    /// An empty index.
    pub fn new() -> (r: Self)
        ensures
            r@ == Seq::<(Seq<char>, Seq<u64>)>::empty(),
            index_wf(r@),
    {
        let r = InvertedIndex { entries: Vec::new() };
        proof {
            assert(r@ =~= Seq::<(Seq<char>, Seq<u64>)>::empty());
        }
        r
    }

    /// The number of lexemes the index has an entry for.
    pub fn token_count(&self) -> (r: usize)
        ensures
            r == tokens_of(self@).len(),
    {
        self.entries.len()
    }

    /// Append `id` to the posting list of `token`, creating the entry when
    /// it is absent.
    pub fn add(&mut self, token: Vec<char>, id: u64)
        requires
            index_wf(old(self)@),
        ensures
            final(self)@ == add_one(old(self)@, token@, id),
            index_wf(final(self)@),
    {
        let ghost idx0 = self@;
        let mut k: usize = 0;
        while k < self.entries.len()
            invariant
                idx0 == old(self)@,
                index_wf(idx0),
                self@ == idx0,
                self.entries@.len() == idx0.len(),
                k <= self.entries@.len(),
                forall|j: int| 0 <= j < k ==> (#[trigger] idx0[j]).0 != token@,
            decreases self.entries@.len() - k,
        {
            if chars_eq(&self.entries[k].0, &token) {
                proof {
                    assert(idx0[k as int].0 == token@);
                }
                let ghost entries_pre = self.entries@;
                let (tok_v, mut pl_v) = self.entries.remove(k);
                pl_v.push(id);
                self.entries.insert(k, (tok_v, pl_v));
                proof {
                    assert(tok_v@ == idx0[k as int].0);
                    assert(pl_v@ == idx0[k as int].1.push(id));
                    assert(self.entries@ =~= entries_pre.update(k as int, (tok_v, pl_v)));
                    lemma_add_one_found(idx0, token@, id, k as int);
                    assert(self@ =~= idx0.update(
                        k as int,
                        (idx0[k as int].0, idx0[k as int].1.push(id)),
                    ));
                    lemma_add_one_sem(idx0, token@, id);
                }
                return ;
            }
            k = k + 1;
        }
        let mut pl: Vec<u64> = Vec::new();
        pl.push(id);
        self.entries.push((token, pl));
        proof {
            assert(!has_token(idx0, token@)) by {
                if has_token(idx0, token@) {
                    let j = choose|j: int|
                        0 <= j < idx0.len() && (#[trigger] idx0[j]).0 == token@;
                    assert(idx0[j].0 != token@);
                }
            }
            lemma_add_one_absent(idx0, token@, id);
            assert(pl@ =~= seq![id]);
            assert(self@ =~= idx0.push((token@, seq![id])));
            lemma_add_one_sem(idx0, token@, id);
        }
    }

    /// The posting list of `token`: `Some` of the list when the index has an
    /// entry for it, `None` otherwise.
    pub fn lookup(&self, token: &Vec<char>) -> (r: Option<&Vec<u64>>)
        ensures
            match r {
                Some(v) => has_token(self@, token@) && v@ == plist(self@, token@),
                None => !has_token(self@, token@),
            },
    {
        let mut k: usize = 0;
        while k < self.entries.len()
            invariant
                self.entries@.len() == self@.len(),
                k <= self@.len(),
                forall|j: int| 0 <= j < k ==> (#[trigger] self@[j]).0 != token@,
            decreases self@.len() - k,
        {
            if chars_eq(&self.entries[k].0, token) {
                proof {
                    assert(self@[k as int].0 == token@);
                    lemma_plist_found(self@, token@, k as int);
                }
                return Some(&self.entries[k].1);
            }
            k = k + 1;
        }
        proof {
            assert(!has_token(self@, token@)) by {
                if has_token(self@, token@) {
                    let j = choose|j: int|
                        0 <= j < self@.len() && (#[trigger] self@[j]).0 == token@;
                    assert(self@[j].0 != token@);
                }
            }
        }
        None
    }

    /// Remove every occurrence of `id` from every posting list. Entries are
    /// kept, possibly with an empty list.
    pub fn retract(&mut self, id: u64)
        ensures
            final(self)@ == retract_all(old(self)@, id),
    {
        let ghost idx0 = self@;
        let n = self.entries.len();
        let mut k: usize = 0;
        while k < n
            invariant
                idx0 == old(self)@,
                n == self.entries@.len(),
                self@.len() == idx0.len(),
                idx0.len() == n,
                k <= n,
                forall|j: int|
                    0 <= j < k ==> #[trigger] self@[j] == (idx0[j].0, drop_id(idx0[j].1, id)),
                forall|j: int| k <= j < n ==> #[trigger] self@[j] == idx0[j],
            decreases n - k,
        {
            let ghost view_pre = self@;
            let ghost entries_pre = self.entries@;
            let (tok_v, pl_v) = self.entries.remove(k);
            let filtered = filter_out(pl_v, id);
            self.entries.insert(k, (tok_v, filtered));
            proof {
                assert(tok_v@ == view_pre[k as int].0);
                assert(pl_v@ == view_pre[k as int].1);
                assert(self.entries@ =~= entries_pre.update(k as int, (tok_v, filtered)));
                assert(forall|j: int|
                    0 <= j < n && j != k ==> #[trigger] self@[j] == view_pre[j]);
                assert(self@[k as int] == (tok_v@, filtered@));
                assert(view_pre[k as int] == idx0[k as int]);
                assert(self@[k as int] == (idx0[k as int].0, drop_id(idx0[k as int].1, id)));
            }
            k = k + 1;
        }
        proof {
            assert(self@ =~= retract_all(idx0, id));
        }
    }

    /// Empty every entry of the index.
    pub fn clear(&mut self)
        ensures
            final(self)@ == Seq::<(Seq<char>, Seq<u64>)>::empty(),
            index_wf(final(self)@),
    {
        self.entries.clear();
        proof {
            assert(self@ =~= Seq::<(Seq<char>, Seq<u64>)>::empty());
        }
    }

    /// The total number of postings over all entries.
    pub fn total_refs(&self) -> (r: u128)
        ensures
            r == total_postings(self@),
    {
        let mut sum: u128 = 0;
        let mut k: usize = 0;
        proof {
            assert(self@.take(0) =~= Seq::<(Seq<char>, Seq<u64>)>::empty());
        }
        while k < self.entries.len()
            invariant
                self.entries@.len() == self@.len(),
                k <= self@.len(),
                sum == total_postings(self@.take(k as int)),
                sum <= (k as int) * (usize::MAX as int),
            decreases self@.len() - k,
        {
            let cur = self.entries[k].1.len();
            proof {
                assert(self@.take(k + 1).drop_last() =~= self@.take(k as int));
                assert(self@.take(k + 1).last() == self@[k as int]);
                assert(self@[k as int].1.len() == cur as int);
                assert((k as int) * (usize::MAX as int) + (usize::MAX as int) == (k as int + 1) * (
                usize::MAX as int)) by (nonlinear_arith);
                assert((k as int + 1) * (usize::MAX as int) < u128::MAX as int)
                    by (nonlinear_arith)
                    requires
                        0 <= k as int + 1 <= 0x1_0000_0000_0000_0000,
                        0 < usize::MAX as int <= 0xffff_ffff_ffff_ffff,
                ;
            }
            sum = sum + cur as u128;
            k = k + 1;
        }
        proof {
            assert(self@.take(self@.len() as int) =~= self@);
        }
        sum
    }

    /// Register a batch of lexemes, in order, against one internal id.
    pub fn add_batch(&mut self, toks: &Vec<Vec<char>>, id: u64)
        requires
            index_wf(old(self)@),
        ensures
            final(self)@ == add_all(old(self)@, views_of(toks@), id),
            index_wf(final(self)@),
    {
        let ghost idx0 = self@;
        let ghost ls = views_of(toks@);
        let mut j: usize = 0;
        proof {
            assert(ls.take(0) =~= Seq::<Seq<char>>::empty());
            assert(add_all(idx0, ls.take(0), id) == idx0);
        }
        while j < toks.len()
            invariant
                index_wf(idx0),
                views_of(toks@) == ls,
                toks@.len() == ls.len(),
                j <= toks@.len(),
                self@ == add_all(idx0, ls.take(j as int), id),
                index_wf(self@),
            decreases toks@.len() - j,
        {
            let ghost pre = self@;
            let tok = toks[j].clone();
            proof {
                assert(forall|q: int|
                    0 <= q < toks@[j as int]@.len() ==> cloned::<char>(
                        toks@[j as int]@[q],
                        #[trigger] tok@[q],
                    ));
                assert(tok@ =~= toks@[j as int]@);
                assert(tok@ == ls[j as int]) by {
                    assert(views_of(toks@)[j as int] == toks@[j as int]@);
                }
            }
            self.add(tok, id);
            proof {
                assert(ls.take(j + 1).drop_last() =~= ls.take(j as int));
                assert(ls.take(j + 1).last() == ls[j as int]);
                lemma_add_all_snoc(idx0, ls.take(j as int), ls[j as int], id);
                assert(ls.take(j as int).push(ls[j as int]) =~= ls.take(j + 1));
            }
            j = j + 1;
        }
        proof {
            assert(ls.take(ls.len() as int) =~= ls);
        }
    }

    /// Analyze a text and register every resulting lexeme, in order, against
    /// the internal id.
    pub fn process_string(&mut self, s: &str, id: u64, cfg: &AnalyzerConfig)
        requires
            index_wf(old(self)@),
        ensures
            final(self)@ == add_all(old(self)@, lexemes_of(s@, *cfg), id),
            index_wf(final(self)@),
    {
        let toks = tokenize(s, cfg);
        self.add_batch(&toks, id);
    }

    /// Register the searchable texts of a list of referenced entities — each
    /// one's name and its joined aliases — against the internal id.
    pub fn process_labels(&mut self, labels: &Vec<Aliasable>, ret_id: u64, cfg: &AnalyzerConfig)
        requires
            index_wf(old(self)@),
        ensures
            final(self)@ == add_all(
                old(self)@,
                texts_lexemes(list_texts(alias_views(labels@)), *cfg),
                ret_id,
            ),
            index_wf(final(self)@),
    {
        let ghost idx0 = self@;
        let ghost lv = alias_views(labels@);
        let mut j: usize = 0;
        proof {
            assert(lv.take(0) =~= Seq::<AliasableView>::empty());
            lemma_list_texts_empty(*cfg);
            assert(add_all(idx0, texts_lexemes(list_texts(lv.take(0)), *cfg), ret_id) == idx0);
        }
        while j < labels.len()
            invariant
                index_wf(idx0),
                lv == alias_views(labels@),
                lv.len() == labels@.len(),
                j <= labels@.len(),
                self@ == add_all(idx0, texts_lexemes(list_texts(lv.take(j as int)), *cfg), ret_id),
                index_wf(self@),
            decreases labels@.len() - j,
        {
            let ghost pre = self@;
            let ghost a = lv[j as int];
            self.process_string(labels[j].name.as_str(), ret_id, cfg);
            proof {
                assert(labels@[j as int].name@ == a.name);
            }
            let joined = match &labels[j].aliases {
                Some(al) => join_all(al),
                None => String::new(),
            };
            proof {
                assert(joined@ == alias_join(a)) by {
                    match labels@[j as int].aliases {
                        Some(al) => {
                            assert(a.aliases == Some(str_views(al@)));
                        },
                        None => {
                            assert(a.aliases is None);
                            assert(joined@ =~= Seq::<char>::empty());
                        },
                    }
                }
            }
            self.process_string(joined.as_str(), ret_id, cfg);
            proof {
                lemma_add_all_concat(
                    pre,
                    lexemes_of(a.name, *cfg),
                    lexemes_of(alias_join(a), *cfg),
                    ret_id,
                );
                lemma_texts_lexemes_pair(a, *cfg);
                lemma_list_texts_snoc(lv.take(j as int), a, *cfg);
                assert(lv.take(j + 1) =~= lv.take(j as int).push(a));
                lemma_add_all_concat(
                    idx0,
                    texts_lexemes(list_texts(lv.take(j as int)), *cfg),
                    texts_lexemes(alias_texts(a), *cfg),
                    ret_id,
                );
            }
            j = j + 1;
        }
        proof {
            assert(lv.take(lv.len() as int) =~= lv);
        }
    }
}

} // verus!

