//! The query pipeline's building blocks: attribute filters, the closed set
//! of sort keys with their comparators, a stable insertion sort over scored
//! candidates, reversal, and pagination.
//!
//! Candidates are carried as pairs of a relevance score and a position into
//! the store's record list; specifications speak of the corresponding pairs
//! of score and record model.

use vstd::prelude::*;

use crate::document::{StoredScene, StoredSceneView};
use crate::store::{RecordView, Store};
use crate::text::{lex_le, lex_le_chars, lower_of, lowercase_chars, str_eq, str_views};

verus! {

/// The closed set of sort attributes.
#[derive(Clone, Copy, Debug, PartialEq, Eq, Structural)]
pub enum SortKey {
    Name,
    Rating,
    AddedOn,
    Duration,
    Resolution,
    Size,
    Views,
    Date,
}

/// How a candidate list is ordered: by descending relevance score, or
/// ascending by one sort attribute.
#[derive(Clone, Copy, Debug, PartialEq, Eq, Structural)]
pub enum Order {
    ScoreDesc,
    Attr(SortKey),
}

/// A scored candidate in the model: the relevance score and the record.
pub type ScoredRec = (nat, RecordView);

/// The numeric sort key of a document; a missing attribute counts as its
/// default, zero.
pub open spec fn num_key(d: StoredSceneView, k: SortKey) -> int {
    match k {
        SortKey::Name => 0,
        SortKey::Rating => match d.rating {
            Some(v) => v as int,
            None => 0,
        },
        SortKey::AddedOn => d.added_on as int,
        SortKey::Duration => match d.duration {
            Some(v) => v as int,
            None => 0,
        },
        SortKey::Resolution => match d.resolution {
            Some(v) => v as int,
            None => 0,
        },
        SortKey::Size => match d.size {
            Some(v) => v as int,
            None => 0,
        },
        SortKey::Views => d.num_watches as int,
        SortKey::Date => match d.release_date {
            Some(v) => v as int,
            None => 0,
        },
    }
}

/// The comparator of an order: `a` may stay before `b`. Names compare by
/// the lowercase form, other attributes numerically; under `ScoreDesc`
/// higher scores come first.
pub open spec fn pair_le(ord: Order, a: ScoredRec, b: ScoredRec) -> bool {
    match ord {
        Order::ScoreDesc => a.0 >= b.0,
        Order::Attr(k) => match k {
            SortKey::Name => lex_le(lower_of(a.1.doc.name), lower_of(b.1.doc.name)),
            _ => num_key(a.1.doc, k) <= num_key(b.1.doc, k),
        },
    }
}

/// Where a stable insertion places `x` in the sorted list `t`: after every
/// element that may stay before it.
pub open spec fn insert_pos(ord: Order, t: Seq<ScoredRec>, x: ScoredRec) -> int
    decreases t.len(),
{
    if t.len() == 0 {
        0
    } else if !pair_le(ord, t[0], x) {
        0
    } else {
        1 + insert_pos(ord, t.drop_first(), x)
    }
}

/// The stable sort under an order: each element inserted, in input order,
/// after every already-placed element that may stay before it. Elements
/// that compare equal therefore keep their input order.
pub open spec fn sort_spec(ord: Order, s: Seq<ScoredRec>) -> Seq<ScoredRec>
    decreases s.len(),
{
    if s.len() == 0 {
        s
    } else {
        let t = sort_spec(ord, s.drop_last());
        t.insert(insert_pos(ord, t, s.last()), s.last())
    }
}

pub proof fn lemma_insert_pos_bounds(ord: Order, t: Seq<ScoredRec>, x: ScoredRec)
    ensures
        0 <= insert_pos(ord, t, x) <= t.len(),
        forall|q: int| 0 <= q < insert_pos(ord, t, x) ==> pair_le(ord, t[q], x),
        insert_pos(ord, t, x) < t.len() ==> !pair_le(ord, t[insert_pos(ord, t, x)], x),
    decreases t.len(),
{
    if t.len() > 0 && pair_le(ord, t[0], x) {
        lemma_insert_pos_bounds(ord, t.drop_first(), x);
        let p = insert_pos(ord, t, x);
        assert(forall|q: int| 1 <= q < p ==> t[q] == t.drop_first()[q - 1]);
        if p < t.len() {
            assert(t[p] == t.drop_first()[p - 1]);
        }
    }
}

proof fn lemma_insert_pos_char(ord: Order, t: Seq<ScoredRec>, x: ScoredRec, j: int)
    requires
        0 <= j <= t.len(),
        forall|q: int| 0 <= q < j ==> pair_le(ord, t[q], x),
        j < t.len() ==> !pair_le(ord, t[j], x),
    ensures
        insert_pos(ord, t, x) == j,
    decreases t.len(),
{
    if t.len() == 0 {
    } else if j == 0 {
    } else {
        assert(pair_le(ord, t[0], x));
        assert(forall|q: int| 0 <= q < j - 1 ==> pair_le(ord, t.drop_first()[q], x)) by {
            assert(forall|q: int| 0 <= q < j - 1 ==> t.drop_first()[q] == t[q + 1]);
        }
        if j - 1 < t.drop_first().len() {
            assert(t.drop_first()[j - 1] == t[j]);
        }
        lemma_insert_pos_char(ord, t.drop_first(), x, j - 1);
    }
}

/// Every comparator is total.
pub proof fn lemma_pair_le_total(ord: Order, a: ScoredRec, b: ScoredRec)
    ensures
        pair_le(ord, a, b) || pair_le(ord, b, a),
{
    match ord {
        Order::ScoreDesc => {},
        Order::Attr(k) => match k {
            SortKey::Name => {
                crate::text::lemma_lex_le_total(lower_of(a.1.doc.name), lower_of(b.1.doc.name));
            },
            _ => {},
        },
    }
}

/// Every comparator is transitive.
pub proof fn lemma_pair_le_trans(ord: Order, a: ScoredRec, b: ScoredRec, c: ScoredRec)
    requires
        pair_le(ord, a, b),
        pair_le(ord, b, c),
    ensures
        pair_le(ord, a, c),
{
    match ord {
        Order::ScoreDesc => {},
        Order::Attr(k) => match k {
            SortKey::Name => {
                crate::text::lemma_lex_le_trans(
                    lower_of(a.1.doc.name),
                    lower_of(b.1.doc.name),
                    lower_of(c.1.doc.name),
                );
            },
            _ => {},
        },
    }
}

/// Pairwise order of a candidate list under a comparator.
pub open spec fn sorted_by(ord: Order, s: Seq<ScoredRec>) -> bool {
    forall|i: int, j: int| 0 <= i < j < s.len() ==> pair_le(ord, s[i], s[j])
}

/// The stable sort really sorts: its result is pairwise ordered under the
/// comparator.
pub proof fn lemma_sort_spec_sorted(ord: Order, s: Seq<ScoredRec>)
    ensures
        sorted_by(ord, sort_spec(ord, s)),
    decreases s.len(),
{
    if s.len() > 0 {
        let s0 = s.drop_last();
        let x = s.last();
        lemma_sort_spec_sorted(ord, s0);
        let t = sort_spec(ord, s0);
        let p = insert_pos(ord, t, x);
        lemma_insert_pos_bounds(ord, t, x);
        let out = t.insert(p, x);
        t.insert_ensures(p, x);
        assert forall|i: int, j: int| 0 <= i < j < out.len() implies pair_le(
            ord,
            out[i],
            out[j],
        ) by {
            if j < p {
                assert(out[i] == t[i] && out[j] == t[j]);
            } else if j == p {
                assert(out[i] == t[i]);
                assert(out[j] == x);
            } else {
                assert(out[j] == t[j - 1]);
                if i < p {
                    assert(out[i] == t[i]);
                    assert(i < j - 1);
                } else if i == p {
                    assert(out[i] == x);
                    assert(p < t.len());
                    assert(!pair_le(ord, t[p], x));
                    lemma_pair_le_total(ord, t[p], x);
                    assert(pair_le(ord, x, t[p]));
                    if j - 1 > p {
                        assert(pair_le(ord, t[p], t[j - 1]));
                        lemma_pair_le_trans(ord, x, t[p], t[j - 1]);
                    }
                } else {
                    assert(out[i] == t[i - 1]);
                }
            }
        }
    }
}

/// Two candidates the comparator cannot distinguish.
pub open spec fn pair_equiv(ord: Order, a: ScoredRec, b: ScoredRec) -> bool {
    pair_le(ord, a, b) && pair_le(ord, b, a)
}

/// The elements of `s` the comparator cannot distinguish from `pivot`, in
/// the order of `s`.
pub open spec fn class_of(ord: Order, s: Seq<ScoredRec>, pivot: ScoredRec) -> Seq<ScoredRec> {
    s.filter(|x: ScoredRec| pair_equiv(ord, x, pivot))
}

proof fn lemma_class_step(ord: Order, s: Seq<ScoredRec>, pivot: ScoredRec)
    requires
        s.len() > 0,
    ensures
        class_of(ord, s, pivot) == if pair_equiv(ord, s.last(), pivot) {
            class_of(ord, s.drop_last(), pivot).push(s.last())
        } else {
            class_of(ord, s.drop_last(), pivot)
        },
{
    reveal_with_fuel(Seq::<_>::filter, 2);
}

proof fn lemma_class_empty_seq(ord: Order, pivot: ScoredRec)
    ensures
        class_of(ord, Seq::<ScoredRec>::empty(), pivot) == Seq::<ScoredRec>::empty(),
{
    reveal_with_fuel(Seq::<_>::filter, 2);
    assert(class_of(ord, Seq::<ScoredRec>::empty(), pivot) =~= Seq::<ScoredRec>::empty());
}

proof fn lemma_class_concat(ord: Order, a: Seq<ScoredRec>, b: Seq<ScoredRec>, pivot: ScoredRec)
    ensures
        class_of(ord, a + b, pivot) == class_of(ord, a, pivot) + class_of(ord, b, pivot),
    decreases b.len(),
{
    if b.len() == 0 {
        assert(a + b =~= a);
        lemma_class_empty_seq(ord, pivot);
        assert(class_of(ord, a, pivot) + class_of(ord, b, pivot) =~= class_of(ord, a, pivot));
    } else {
        assert((a + b).drop_last() =~= a + b.drop_last());
        assert((a + b).last() == b.last());
        lemma_class_concat(ord, a, b.drop_last(), pivot);
        lemma_class_step(ord, a + b, pivot);
        lemma_class_step(ord, b, pivot);
        if pair_equiv(ord, b.last(), pivot) {
            assert((class_of(ord, a, pivot) + class_of(ord, b.drop_last(), pivot)).push(b.last())
                =~= class_of(ord, a, pivot) + class_of(ord, b.drop_last(), pivot).push(b.last()));
        }
    }
}

proof fn lemma_class_none(ord: Order, s: Seq<ScoredRec>, pivot: ScoredRec)
    requires
        forall|j: int| 0 <= j < s.len() ==> !pair_equiv(ord, #[trigger] s[j], pivot),
    ensures
        class_of(ord, s, pivot) == Seq::<ScoredRec>::empty(),
    decreases s.len(),
{
    if s.len() == 0 {
        lemma_class_empty_seq(ord, pivot);
    } else {
        assert(forall|j: int|
            0 <= j < s.drop_last().len() ==> !pair_equiv(ord, #[trigger] s.drop_last()[j], pivot));
        lemma_class_none(ord, s.drop_last(), pivot);
        lemma_class_step(ord, s, pivot);
        assert(!pair_equiv(ord, s[s.len() - 1], pivot));
    }
}

/// A stable insertion leaves every comparator class as it was, except for
/// appending the new element to its own class.
proof fn lemma_class_insert(
    ord: Order,
    t: Seq<ScoredRec>,
    x: ScoredRec,
    p: int,
    pivot: ScoredRec,
)
    requires
        sorted_by(ord, t),
        0 <= p <= t.len(),
        forall|q: int| 0 <= q < p ==> pair_le(ord, t[q], x),
        p < t.len() ==> !pair_le(ord, t[p], x),
    ensures
        class_of(ord, t.insert(p, x), pivot) == if pair_equiv(ord, x, pivot) {
            class_of(ord, t, pivot).push(x)
        } else {
            class_of(ord, t, pivot)
        },
{
    let a = t.subrange(0, p);
    let b = t.subrange(p, t.len() as int);
    assert(t.insert(p, x) =~= a + (seq![x] + b));
    assert(t =~= a + b);
    lemma_class_concat(ord, a, seq![x] + b, pivot);
    lemma_class_concat(ord, seq![x], b, pivot);
    lemma_class_concat(ord, a, b, pivot);
    lemma_class_step(ord, seq![x], pivot);
    assert(seq![x].drop_last() =~= Seq::<ScoredRec>::empty());
    lemma_class_empty_seq(ord, pivot);
    if pair_equiv(ord, x, pivot) {
        assert(class_of(ord, seq![x], pivot) =~= seq![x]);
        // nothing equivalent to the pivot can stand at or after the
        // insertion position
        assert forall|j: int| 0 <= j < b.len() implies !pair_equiv(
            ord,
            #[trigger] b[j],
            pivot,
        ) by {
            assert(b[j] == t[p + j]);
            if pair_equiv(ord, t[p + j], pivot) {
                // t[p + j] is equivalent to x, so it compares below x,
                // which contradicts the insertion position
                lemma_pair_le_trans(ord, t[p + j], pivot, x);
                assert(pair_le(ord, t[p + j], x));
                if p + j > p {
                    assert(pair_le(ord, t[p], t[p + j]));
                    lemma_pair_le_trans(ord, t[p], t[p + j], x);
                }
                assert(pair_le(ord, t[p], x));
                assert(false);
            }
        }
        lemma_class_none(ord, b, pivot);
        assert(class_of(ord, t.insert(p, x), pivot) =~= class_of(ord, a, pivot).push(x));
        assert(class_of(ord, t, pivot) =~= class_of(ord, a, pivot));
        assert(class_of(ord, t.insert(p, x), pivot) =~= class_of(ord, t, pivot).push(x));
    } else {
        assert(class_of(ord, seq![x], pivot) =~= Seq::<ScoredRec>::empty());
        assert(class_of(ord, t.insert(p, x), pivot) =~= class_of(ord, a, pivot) + class_of(
            ord,
            b,
            pivot,
        ));
        assert(class_of(ord, t.insert(p, x), pivot) =~= class_of(ord, t, pivot));
    }
}

/// The stable sort is stable: the elements the comparator cannot
/// distinguish from any pivot come out in exactly their input order. With
/// candidates built in store order, ties under the relevance sort keep
/// insertion order (ascending internal id), and ties under an attribute
/// sort keep their pre-sort relative order.
pub proof fn lemma_sort_spec_stable(ord: Order, s: Seq<ScoredRec>)
    ensures
        forall|pivot: ScoredRec|
            #[trigger] class_of(ord, sort_spec(ord, s), pivot) == class_of(ord, s, pivot),
    decreases s.len(),
{
    if s.len() == 0 {
    } else {
        let s0 = s.drop_last();
        let x = s.last();
        lemma_sort_spec_stable(ord, s0);
        lemma_sort_spec_sorted(ord, s0);
        let t = sort_spec(ord, s0);
        let p = insert_pos(ord, t, x);
        lemma_insert_pos_bounds(ord, t, x);
        assert forall|pivot: ScoredRec| #[trigger] class_of(ord, sort_spec(ord, s), pivot)
            == class_of(ord, s, pivot) by {
            lemma_class_insert(ord, t, x, p, pivot);
            lemma_class_step(ord, s, pivot);
        }
    }
}

/// The stable sort is a rearrangement: same length, same members.
pub proof fn lemma_sort_spec_contains(ord: Order, s: Seq<ScoredRec>)
    ensures
        sort_spec(ord, s).len() == s.len(),
        forall|x: ScoredRec| sort_spec(ord, s).contains(x) <==> s.contains(x),
        sort_spec(ord, s).to_multiset() == s.to_multiset(),
    decreases s.len(),
{
    broadcast use vstd::seq_lib::group_to_multiset_ensures;

    if s.len() == 0 {
        assert(forall|x: ScoredRec| !s.contains(x));
        assert(forall|x: ScoredRec| !sort_spec(ord, s).contains(x));
    } else {
        let s0 = s.drop_last();
        let x = s.last();
        lemma_sort_spec_contains(ord, s0);
        let t = sort_spec(ord, s0);
        let p = insert_pos(ord, t, x);
        lemma_insert_pos_bounds(ord, t, x);
        let out = t.insert(p, x);
        assert(s0.push(x) =~= s);
        lemma_insert_multiset(t, p, x);
        assert(s0.push(x).to_multiset() =~= s0.to_multiset().insert(x));
        assert(out.to_multiset() == s.to_multiset());
        assert forall|y: ScoredRec| out.contains(y) <==> s.contains(y) by {
            assert(out.contains(y) <==> out.to_multiset().count(y) > 0);
            assert(s.contains(y) <==> s.to_multiset().count(y) > 0);
        }
    }
}

proof fn lemma_insert_multiset(t: Seq<ScoredRec>, p: int, x: ScoredRec)
    requires
        0 <= p <= t.len(),
    ensures
        t.insert(p, x).to_multiset() == t.to_multiset().insert(x),
{
    broadcast use vstd::seq_lib::group_to_multiset_ensures;

    let a = t.subrange(0, p);
    let b = t.subrange(p, t.len() as int);
    assert(t.insert(p, x) =~= a.push(x) + b);
    vstd::seq_lib::lemma_multiset_commutative(a.push(x), b);
    assert(a.push(x).to_multiset() =~= a.to_multiset().insert(x));
    assert(t =~= a + b);
    vstd::seq_lib::lemma_multiset_commutative(a, b);
    assert(t.insert(p, x).to_multiset() =~= t.to_multiset().insert(x));
}

/// The model of an executable candidate list: each pair of score and store
/// position, as the pair of score and record.
pub open spec fn cand_views(ps: Seq<(u128, usize)>, recs: Seq<RecordView>) -> Seq<ScoredRec> {
    ps.map_values(|p: (u128, usize)| (p.0 as nat, recs[p.1 as int]))
}

/// Every candidate's position points into the record list.
pub open spec fn cands_ok(ps: Seq<(u128, usize)>, recs: Seq<RecordView>) -> bool {
    forall|j: int| 0 <= j < ps.len() ==> (#[trigger] ps[j]).1 < recs.len()
}

/// The numeric sort key of a stored document.
fn num_key_exec(d: &StoredScene, k: SortKey) -> (v: i128)
    ensures
        v as int == num_key(d@, k),
{
    match k {
        SortKey::Name => 0,
        SortKey::Rating => match d.rating {
            Some(v) => v as i128,
            None => 0,
        },
        SortKey::AddedOn => d.added_on as i128,
        SortKey::Duration => match d.duration {
            Some(v) => v as i128,
            None => 0,
        },
        SortKey::Resolution => match d.resolution {
            Some(v) => v as i128,
            None => 0,
        },
        SortKey::Size => match d.size {
            Some(v) => v as i128,
            None => 0,
        },
        SortKey::Views => d.num_watches as i128,
        SortKey::Date => match d.release_date {
            Some(v) => v as i128,
            None => 0,
        },
    }
}

/// Decide the comparator on two executable candidates.
fn pair_le_exec(store: &Store, ord: Order, a: (u128, usize), b: (u128, usize)) -> (r: bool)
    requires
        a.1 < store.recs().len(),
        b.1 < store.recs().len(),
    ensures
        r == pair_le(
            ord,
            (a.0 as nat, store.recs()[a.1 as int]),
            (b.0 as nat, store.recs()[b.1 as int]),
        ),
{
    match ord {
        Order::ScoreDesc => a.0 >= b.0,
        Order::Attr(k) => match k {
            SortKey::Name => {
                let la = lowercase_chars(store.record_at(a.1).doc.name.as_str());
                let lb = lowercase_chars(store.record_at(b.1).doc.name.as_str());
                lex_le_chars(&la, &lb)
            },
            _ => {
                let va = num_key_exec(&store.record_at(a.1).doc, k);
                let vb = num_key_exec(&store.record_at(b.1).doc, k);
                va <= vb
            },
        },
    }
}

/// The position at which a stable insertion places `x` in `out`.
fn find_insert_pos(store: &Store, ord: Order, out: &Vec<(u128, usize)>, x: (u128, usize)) -> (p:
    usize)
    requires
        cands_ok(out@, store.recs()),
        x.1 < store.recs().len(),
    ensures
        p == insert_pos(ord, cand_views(out@, store.recs()), (x.0 as nat, store.recs()[x.1 as int])),
{
    let ghost recs = store.recs();
    let ghost t = cand_views(out@, recs);
    let ghost mx = (x.0 as nat, recs[x.1 as int]);
    let mut j: usize = 0;
    while j < out.len()
        invariant
            recs == store.recs(),
            t == cand_views(out@, recs),
            cands_ok(out@, recs),
            x.1 < recs.len(),
            mx == (x.0 as nat, recs[x.1 as int]),
            t.len() == out@.len(),
            j <= out@.len(),
            forall|q: int| 0 <= q < j ==> pair_le(ord, t[q], mx),
        decreases out@.len() - j,
    {
        if !pair_le_exec(store, ord, out[j], x) {
            proof {
                assert(t[j as int] == ((out@[j as int].0 as nat, recs[out@[j as int].1 as int])));
                lemma_insert_pos_char(ord, t, mx, j as int);
            }
            return j;
        }
        proof {
            assert(t[j as int] == ((out@[j as int].0 as nat, recs[out@[j as int].1 as int])));
        }
        j = j + 1;
    }
    proof {
        lemma_insert_pos_char(ord, t, mx, t.len() as int);
    }
    j
}

/// Stable sort of a candidate list under an order: the result is exactly
/// [`sort_spec`] of the input's model.
pub fn sort_pairs(store: &Store, ord: Order, v: Vec<(u128, usize)>) -> (r: Vec<(u128, usize)>)
    requires
        cands_ok(v@, store.recs()),
    ensures
        cand_views(r@, store.recs()) == sort_spec(ord, cand_views(v@, store.recs())),
        cands_ok(r@, store.recs()),
{
    let ghost recs = store.recs();
    let ghost s = cand_views(v@, recs);
    let mut out: Vec<(u128, usize)> = Vec::new();
    let mut i: usize = 0;
    proof {
        assert(s.take(0) =~= Seq::<ScoredRec>::empty());
        assert(cand_views(out@, recs) =~= sort_spec(ord, s.take(0)));
    }
    while i < v.len()
        invariant
            recs == store.recs(),
            s == cand_views(v@, recs),
            cands_ok(v@, recs),
            s.len() == v@.len(),
            i <= v@.len(),
            cands_ok(out@, recs),
            cand_views(out@, recs) == sort_spec(ord, s.take(i as int)),
        decreases v@.len() - i,
    {
        let x = v[i];
        let ghost mx = (x.0 as nat, recs[x.1 as int]);
        proof {
            assert(s[i as int] == mx);
        }
        let p = find_insert_pos(store, ord, &out, x);
        let ghost t = cand_views(out@, recs);
        let ghost pre = out@;
        proof {
            lemma_insert_pos_bounds(ord, t, mx);
            assert(t.len() == out@.len());
        }
        out.insert(p, x);
        proof {
            pre.insert_ensures(p as int, x);
            assert(out@ == pre.insert(p as int, x));
            assert(cands_ok(out@, recs)) by {
                assert forall|q: int| 0 <= q < out@.len() implies (#[trigger] out@[q]).1
                    < recs.len() by {
                    if q < p {
                        assert(out@[q] == pre[q]);
                    } else if q == p {
                        assert(out@[q] == x);
                    } else {
                        assert(out@[q] == pre[q - 1]);
                    }
                }
            }
            t.insert_ensures(p as int, mx);
            assert(cand_views(out@, recs) =~= t.insert(p as int, mx)) by {
                assert forall|q: int| 0 <= q < out@.len() implies #[trigger] cand_views(
                    out@,
                    recs,
                )[q] == t.insert(p as int, mx)[q] by {
                    assert(cand_views(out@, recs)[q] == ((out@[q].0 as nat, recs[out@[q].1 as int])));
                    if q < p {
                        assert(out@[q] == pre[q]);
                        assert(t.insert(p as int, mx)[q] == t[q]);
                        assert(t[q] == ((pre[q].0 as nat, recs[pre[q].1 as int])));
                    } else if q == p {
                        assert(out@[q] == x);
                        assert(t.insert(p as int, mx)[q] == mx);
                    } else {
                        assert(out@[q] == pre[q - 1]);
                        assert(t.insert(p as int, mx)[(q - 1) + 1] == t[q - 1]);
                        assert(t[q - 1] == ((pre[q - 1].0 as nat, recs[pre[q - 1].1 as int])));
                    }
                }
            }
            assert(s.take(i + 1).drop_last() =~= s.take(i as int));
            assert(s.take(i + 1).last() == s[i as int]);
            assert(sort_spec(ord, s.take(i + 1)) == t.insert(
                insert_pos(ord, t, s[i as int]),
                s[i as int],
            ));
        }
        i = i + 1;
    }
    proof {
        assert(s.take(s.len() as int) =~= s);
    }
    out
}

/// The attribute filters of one search. Each filter is optional and they
/// are AND-combined: a document must pass every active one.
pub struct SearchFilters {
    pub favorite: bool,
    pub bookmark: bool,
    pub rating_min: Option<u8>,
    pub duration_min: Option<u16>,
    pub duration_max: Option<u16>,
    pub studio: Option<String>,
    pub include_labels: Vec<String>,
    pub include_actors: Vec<String>,
    pub exclude_labels: Vec<String>,
}

/// The mathematical model of [`SearchFilters`].
pub ghost struct SearchFiltersView {
    pub favorite: bool,
    pub bookmark: bool,
    pub rating_min: Option<u8>,
    pub duration_min: Option<u16>,
    pub duration_max: Option<u16>,
    pub studio: Option<Seq<char>>,
    pub include_labels: Seq<Seq<char>>,
    pub include_actors: Seq<Seq<char>>,
    pub exclude_labels: Seq<Seq<char>>,
}

impl View for SearchFilters {
    type V = SearchFiltersView;

    open spec fn view(&self) -> SearchFiltersView {
        SearchFiltersView {
            favorite: self.favorite,
            bookmark: self.bookmark,
            rating_min: self.rating_min,
            duration_min: self.duration_min,
            duration_max: self.duration_max,
            studio: match self.studio {
                Some(s) => Some(s@),
                None => None,
            },
            include_labels: str_views(self.include_labels@),
            include_actors: str_views(self.include_actors@),
            exclude_labels: str_views(self.exclude_labels@),
        }
    }
}

impl SearchFilters {
    /// No filter active: every document passes.
    pub fn none() -> (r: Self)
        ensures
            r@ == no_filters(),
    {
        let r = SearchFilters {
            favorite: false,
            bookmark: false,
            rating_min: None,
            duration_min: None,
            duration_max: None,
            studio: None,
            include_labels: Vec::new(),
            include_actors: Vec::new(),
            exclude_labels: Vec::new(),
        };
        proof {
            assert(str_views(r.include_labels@) =~= Seq::<Seq<char>>::empty());
            assert(str_views(r.include_actors@) =~= Seq::<Seq<char>>::empty());
            assert(str_views(r.exclude_labels@) =~= Seq::<Seq<char>>::empty());
        }
        r
    }
}

/// The model of an empty filter set.
pub open spec fn no_filters() -> SearchFiltersView {
    SearchFiltersView {
        favorite: false,
        bookmark: false,
        rating_min: None,
        duration_min: None,
        duration_max: None,
        studio: None,
        include_labels: Seq::empty(),
        include_actors: Seq::empty(),
        exclude_labels: Seq::empty(),
    }
}

/// Every document passes an empty filter set.
pub proof fn lemma_no_filters_pass(d: StoredSceneView)
    ensures
        matches_filters(d, no_filters()),
{
}

/// Whether a document passes every active filter: boolean flags must be
/// set when filtered on, numeric attributes must meet the thresholds
/// (missing values count as zero), the single-valued studio reference must
/// equal the requested id (missing counts as the empty id), every id of an
/// include list must be among the document's references, and no id of the
/// exclude list may be.
pub open spec fn matches_filters(d: StoredSceneView, f: SearchFiltersView) -> bool {
    &&& (f.favorite ==> d.favorite)
    &&& (f.bookmark ==> d.bookmark)
    &&& (match f.rating_min {
        Some(m) => (match d.rating {
            Some(v) => v as int,
            None => 0,
        }) >= m as int,
        None => true,
    })
    &&& (match f.duration_min {
        Some(m) => (match d.duration {
            Some(v) => v as int,
            None => 0,
        }) >= m as int,
        None => true,
    })
    &&& (match f.duration_max {
        Some(m) => (match d.duration {
            Some(v) => v as int,
            None => 0,
        }) <= m as int,
        None => true,
    })
    &&& (match f.studio {
        Some(s) => (match d.studio {
            Some(x) => x,
            None => Seq::empty(),
        }) == s,
        None => true,
    })
    &&& (forall|j: int|
        0 <= j < f.include_labels.len() ==> d.labels.contains(#[trigger] f.include_labels[j]))
    &&& (forall|j: int|
        0 <= j < f.include_actors.len() ==> d.actors.contains(#[trigger] f.include_actors[j]))
    &&& (forall|j: int|
        0 <= j < f.exclude_labels.len() ==> !d.labels.contains(#[trigger] f.exclude_labels[j]))
}

/// Whether the view of `s` occurs among the views of `v`.
fn contains_str(v: &Vec<String>, s: &String) -> (r: bool)
    ensures
        r == str_views(v@).contains(s@),
{
    let mut i: usize = 0;
    while i < v.len()
        invariant
            i <= v@.len(),
            forall|j: int| 0 <= j < i ==> #[trigger] str_views(v@)[j] != s@,
        decreases v@.len() - i,
    {
        if str_eq(v[i].as_str(), s.as_str()) {
            proof {
                assert(str_views(v@)[i as int] == s@);
            }
            return true;
        }
        proof {
            assert(str_views(v@)[i as int] == v@[i as int]@);
        }
        i = i + 1;
    }
    proof {
        if str_views(v@).contains(s@) {
            let j = choose|j: int| 0 <= j < str_views(v@).len() && str_views(v@)[j] == s@;
            assert(str_views(v@)[j] != s@);
        }
    }
    false
}

/// Whether every string of `need` occurs among `have`.
fn all_in(need: &Vec<String>, have: &Vec<String>) -> (r: bool)
    ensures
        r == forall|j: int|
            0 <= j < str_views(need@).len() ==> str_views(have@).contains(
                #[trigger] str_views(need@)[j],
            ),
{
    let mut i: usize = 0;
    while i < need.len()
        invariant
            i <= need@.len(),
            forall|j: int|
                0 <= j < i ==> str_views(have@).contains(#[trigger] str_views(need@)[j]),
        decreases need@.len() - i,
    {
        if !contains_str(have, &need[i]) {
            proof {
                assert(str_views(need@)[i as int] == need@[i as int]@);
            }
            return false;
        }
        proof {
            assert(str_views(need@)[i as int] == need@[i as int]@);
        }
        i = i + 1;
    }
    true
}

/// Whether no string of `ban` occurs among `have`.
fn none_in(ban: &Vec<String>, have: &Vec<String>) -> (r: bool)
    ensures
        r == forall|j: int|
            0 <= j < str_views(ban@).len() ==> !str_views(have@).contains(
                #[trigger] str_views(ban@)[j],
            ),
{
    let mut i: usize = 0;
    while i < ban.len()
        invariant
            i <= ban@.len(),
            forall|j: int|
                0 <= j < i ==> !str_views(have@).contains(#[trigger] str_views(ban@)[j]),
        decreases ban@.len() - i,
    {
        if contains_str(have, &ban[i]) {
            proof {
                assert(str_views(ban@)[i as int] == ban@[i as int]@);
            }
            return false;
        }
        proof {
            assert(str_views(ban@)[i as int] == ban@[i as int]@);
        }
        i = i + 1;
    }
    true
}

/// Decide [`matches_filters`] on a stored document.
pub fn matches_filters_exec(d: &StoredScene, f: &SearchFilters) -> (r: bool)
    ensures
        r == matches_filters(d@, f@),
{
    if f.favorite && !d.favorite {
        return false;
    }
    if f.bookmark && !d.bookmark {
        return false;
    }
    match f.rating_min {
        Some(m) => {
            let v: u8 = match d.rating {
                Some(v) => v,
                None => 0,
            };
            if v < m {
                return false;
            }
        },
        None => {},
    }
    match f.duration_min {
        Some(m) => {
            let v: u16 = match d.duration {
                Some(v) => v,
                None => 0,
            };
            if v < m {
                return false;
            }
        },
        None => {},
    }
    match f.duration_max {
        Some(m) => {
            let v: u16 = match d.duration {
                Some(v) => v,
                None => 0,
            };
            if v > m {
                return false;
            }
        },
        None => {},
    }
    match &f.studio {
        Some(s) => {
            let matches = match &d.studio {
                Some(x) => str_eq(x.as_str(), s.as_str()),
                None => {
                    let empty = String::new();
                    str_eq(empty.as_str(), s.as_str())
                },
            };
            if !matches {
                return false;
            }
        },
        None => {},
    }
    if !all_in(&f.include_labels, &d.labels) {
        proof {
            let j = choose|j: int|
                0 <= j < str_views(f.include_labels@).len() && !str_views(d.labels@).contains(
                    str_views(f.include_labels@)[j],
                );
            assert(!d@.labels.contains(f@.include_labels[j]));
        }
        return false;
    }
    if !all_in(&f.include_actors, &d.actors) {
        proof {
            let j = choose|j: int|
                0 <= j < str_views(f.include_actors@).len() && !str_views(d.actors@).contains(
                    str_views(f.include_actors@)[j],
                );
            assert(!d@.actors.contains(f@.include_actors[j]));
        }
        return false;
    }
    if !none_in(&f.exclude_labels, &d.labels) {
        proof {
            let j = choose|j: int|
                0 <= j < str_views(f.exclude_labels@).len() && str_views(d.labels@).contains(
                    str_views(f.exclude_labels@)[j],
                );
            assert(d@.labels.contains(f@.exclude_labels[j]));
        }
        return false;
    }
    true
}

/// The candidates that pass the filters, in unchanged order.
pub open spec fn filter_cands(cs: Seq<ScoredRec>, f: SearchFiltersView) -> Seq<ScoredRec> {
    cs.filter(|p: ScoredRec| matches_filters(p.1.doc, f))
}

/// One step of [`filter_cands`], for loop proofs.
pub proof fn lemma_filter_cands_step(cs: Seq<ScoredRec>, f: SearchFiltersView)
    requires
        cs.len() > 0,
    ensures
        filter_cands(cs, f) == if matches_filters(cs.last().1.doc, f) {
            filter_cands(cs.drop_last(), f).push(cs.last())
        } else {
            filter_cands(cs.drop_last(), f)
        },
{
    reveal_with_fuel(Seq::<_>::filter, 2);
}

/// Every element of the filtered list passes the filters and comes from the
/// input.
pub proof fn lemma_filter_cands_members(cs: Seq<ScoredRec>, f: SearchFiltersView)
    ensures
        forall|q: int|
            0 <= q < filter_cands(cs, f).len() ==> matches_filters(
                (#[trigger] filter_cands(cs, f)[q]).1.doc,
                f,
            ) && cs.contains(filter_cands(cs, f)[q]),
        filter_cands(cs, f).len() <= cs.len(),
    decreases cs.len(),
{
    reveal_with_fuel(Seq::<_>::filter, 2);
    if cs.len() == 0 {
    } else {
        lemma_filter_cands_members(cs.drop_last(), f);
        lemma_filter_cands_step(cs, f);
        assert forall|q: int| 0 <= q < filter_cands(cs, f).len() implies matches_filters(
            (#[trigger] filter_cands(cs, f)[q]).1.doc,
            f,
        ) && cs.contains(filter_cands(cs, f)[q]) by {
            let sub = filter_cands(cs.drop_last(), f);
            if q < sub.len() {
                assert(filter_cands(cs, f)[q] == sub[q]);
                assert(cs.drop_last().contains(sub[q]));
                let l = choose|l: int| 0 <= l < cs.drop_last().len() && cs.drop_last()[l] == sub[q];
                assert(cs[l] == sub[q]);
            } else {
                assert(filter_cands(cs, f)[q] == cs.last());
                assert(cs[cs.len() - 1] == cs.last());
            }
        }
    }
}

/// Keep exactly the candidates whose document passes the filters.
pub fn filter_pairs(store: &Store, v: Vec<(u128, usize)>, f: &SearchFilters) -> (r: Vec<
    (u128, usize),
>)
    requires
        cands_ok(v@, store.recs()),
    ensures
        cand_views(r@, store.recs()) == filter_cands(cand_views(v@, store.recs()), f@),
        cands_ok(r@, store.recs()),
{
    let ghost recs = store.recs();
    let ghost s = cand_views(v@, recs);
    let mut r: Vec<(u128, usize)> = Vec::new();
    let mut i: usize = 0;
    proof {
        assert(s.take(0) =~= Seq::<ScoredRec>::empty());
        assert(filter_cands(s.take(0), f@) =~= Seq::<ScoredRec>::empty()) by {
            reveal_with_fuel(Seq::<_>::filter, 2);
        }
        assert(cand_views(r@, recs) =~= Seq::<ScoredRec>::empty());
    }
    while i < v.len()
        invariant
            recs == store.recs(),
            s == cand_views(v@, recs),
            cands_ok(v@, recs),
            s.len() == v@.len(),
            i <= v@.len(),
            cands_ok(r@, recs),
            cand_views(r@, recs) == filter_cands(s.take(i as int), f@),
        decreases v@.len() - i,
    {
        let x = v[i];
        let ghost mx = (x.0 as nat, recs[x.1 as int]);
        proof {
            assert(s[i as int] == mx);
            assert(s.take(i + 1).drop_last() =~= s.take(i as int));
            assert(s.take(i + 1).last() == s[i as int]);
            lemma_filter_cands_step(s.take(i + 1), f@);
        }
        let rec = store.record_at(x.1);
        if matches_filters_exec(&rec.doc, f) {
            let ghost pre = r@;
            r.push(x);
            proof {
                assert(cand_views(r@, recs) =~= cand_views(pre, recs).push(mx));
            }
        }
        i = i + 1;
    }
    proof {
        assert(s.take(s.len() as int) =~= s);
    }
    r
}

/// A candidate list reversed.
pub fn reverse_pairs(v: Vec<(u128, usize)>) -> (r: Vec<(u128, usize)>)
    ensures
        r@ == v@.reverse(),
{
    let mut r: Vec<(u128, usize)> = Vec::new();
    let mut i: usize = 0;
    while i < v.len()
        invariant
            i <= v@.len(),
            r@.len() == i,
            forall|q: int| 0 <= q < i ==> #[trigger] r@[q] == v@[v@.len() - 1 - q],
        decreases v@.len() - i,
    {
        r.push(v[v.len() - 1 - i]);
        i = i + 1;
    }
    proof {
        assert(r@ =~= v@.reverse());
    }
    r
}

/// A page: at most `take` elements starting after the first `skip`.
pub open spec fn page_of(s: Seq<ScoredRec>, skip: int, take: int) -> Seq<ScoredRec> {
    let start = if skip < s.len() {
        skip
    } else {
        s.len() as int
    };
    let end = if skip + take < s.len() {
        skip + take
    } else {
        s.len() as int
    };
    s.subrange(start, end)
}

/// Apply the skip offset and take limit to a finally-ordered candidate
/// list.
pub fn paginate(v: Vec<(u128, usize)>, skip: usize, take: usize) -> (r: Vec<(u128, usize)>)
    ensures
        forall|recs: Seq<RecordView>|
            #[trigger] cand_views(r@, recs) == page_of(cand_views(v@, recs), skip as int, take as int),
        r@.len() <= v@.len(),
        forall|q: int| 0 <= q < r@.len() ==> skip + q < v@.len() && #[trigger] r@[q] == v@[skip
            + q],
{
    let mut r: Vec<(u128, usize)> = Vec::new();
    let mut i: usize = skip;
    while i < v.len() && r.len() < take
        invariant
            skip <= i,
            i <= v@.len() || i == skip,
            r@.len() <= take,
            i == skip + r@.len() || (i == skip && r@.len() == 0),
            r@.len() <= v@.len(),
            forall|q: int| 0 <= q < r@.len() ==> skip + q < v@.len() && #[trigger] r@[q] == v@[skip
                + q],
        decreases v@.len() - i,
    {
        r.push(v[i]);
        i = i + 1;
    }
    proof {
        assert forall|recs: Seq<RecordView>|
            #[trigger] cand_views(r@, recs) == page_of(
                cand_views(v@, recs),
                skip as int,
                take as int,
            ) by {
            let s = cand_views(v@, recs);
            assert(s.len() == v@.len());
            assert(cand_views(r@, recs) =~= page_of(s, skip as int, take as int));
        }
    }
    r
}

} // verus!
