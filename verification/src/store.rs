//! The identity map and document store of one collection.
//!
//! The store keeps the live records in insertion order. Each record holds a
//! document's stored shape, the engine-assigned internal id, and the lexemes
//! the document's indexed text contributed, in order and with multiplicity —
//! the reverse of the inverted index's mapping, which is what ties a
//! document's postings to its own text.
//!
//! Internal ids come from a monotonic counter: they are assigned 0, 1, 2, …
//! in insertion order and are never reused; only clearing the collection
//! resets the counter.

use vstd::prelude::*;

use crate::analyzer::views_of;
use crate::document::{StoredScene, StoredSceneView};
use crate::text::str_eq;

verus! {

/// One live document.
pub struct Record {
    pub doc: StoredScene,
    pub internal_id: u64,
    pub lexemes: Vec<Vec<char>>,
}

/// The mathematical model of a [`Record`].
pub ghost struct RecordView {
    pub doc: StoredSceneView,
    pub internal_id: u64,
    pub lex: Seq<Seq<char>>,
}

impl View for Record {
    type V = RecordView;

    open spec fn view(&self) -> RecordView {
        RecordView {
            doc: self.doc@,
            internal_id: self.internal_id,
            lex: views_of(self.lexemes@),
        }
    }
}

/// The views of a record list.
pub open spec fn rec_views(rs: Seq<Record>) -> Seq<RecordView> {
    rs.map_values(|r: Record| r@)
}

/// Whether some record carries the external id `e`.
pub open spec fn has_ext(rs: Seq<RecordView>, e: Seq<char>) -> bool {
    exists|k: int| 0 <= k < rs.len() && (#[trigger] rs[k]).doc.id == e
}

/// The position of the first record with external id `e`; the length when
/// there is none.
pub open spec fn pos_of_ext(rs: Seq<RecordView>, e: Seq<char>) -> int
    decreases rs.len(),
{
    if rs.len() == 0 {
        0
    } else if rs[0].doc.id == e {
        0
    } else {
        1 + pos_of_ext(rs.drop_first(), e)
    }
}

/// The internal id of the first record with external id `e`.
pub open spec fn resolve_spec(rs: Seq<RecordView>, e: Seq<char>) -> Option<u64> {
    if has_ext(rs, e) {
        Some(rs[pos_of_ext(rs, e)].internal_id)
    } else {
        None
    }
}

/// The record list with the record for `e` removed; unchanged when there is
/// none.
pub open spec fn remove_ext(rs: Seq<RecordView>, e: Seq<char>) -> Seq<RecordView> {
    if has_ext(rs, e) {
        rs.remove(pos_of_ext(rs, e))
    } else {
        rs
    }
}

/// Whether some record carries the internal id `i`.
pub open spec fn has_iid(rs: Seq<RecordView>, i: u64) -> bool {
    exists|k: int| 0 <= k < rs.len() && (#[trigger] rs[k]).internal_id == i
}

/// The position of the first record with internal id `i`; the length when
/// there is none.
pub open spec fn pos_of_iid(rs: Seq<RecordView>, i: u64) -> int
    decreases rs.len(),
{
    if rs.len() == 0 {
        0
    } else if rs[0].internal_id == i {
        0
    } else {
        1 + pos_of_iid(rs.drop_first(), i)
    }
}

/// Well-formedness of a record list under a counter value: internal ids
/// strictly increase in insertion order and stay below the counter, and
/// external ids are unique.
pub open spec fn store_wf(rs: Seq<RecordView>, next: u64) -> bool {
    &&& forall|k: int, l: int|
        0 <= k < l < rs.len() ==> (#[trigger] rs[k]).internal_id < (#[trigger] rs[l]).internal_id
    &&& forall|k: int| 0 <= k < rs.len() ==> (#[trigger] rs[k]).internal_id < next
    &&& forall|k: int, l: int|
        0 <= k < l < rs.len() ==> (#[trigger] rs[k]).doc.id != (#[trigger] rs[l]).doc.id
}

/// The first position for `e` is a match when one exists, and everything
/// before it differs.
pub proof fn lemma_pos_of_ext(rs: Seq<RecordView>, e: Seq<char>)
    ensures
        has_ext(rs, e) ==> 0 <= pos_of_ext(rs, e) < rs.len() && rs[pos_of_ext(rs, e)].doc.id == e,
        !has_ext(rs, e) ==> pos_of_ext(rs, e) == rs.len(),
        forall|j: int| 0 <= j < pos_of_ext(rs, e) ==> (#[trigger] rs[j]).doc.id != e,
    decreases rs.len(),
{
    if rs.len() == 0 {
    } else if rs[0].doc.id == e {
    } else {
        lemma_pos_of_ext(rs.drop_first(), e);
        assert(has_ext(rs, e) <==> has_ext(rs.drop_first(), e)) by {
            if has_ext(rs, e) {
                let k = choose|k: int| 0 <= k < rs.len() && (#[trigger] rs[k]).doc.id == e;
                assert(k > 0);
                assert(rs.drop_first()[k - 1].doc.id == e);
            }
            if has_ext(rs.drop_first(), e) {
                let k = choose|k: int|
                    0 <= k < rs.drop_first().len() && (#[trigger] rs.drop_first()[k]).doc.id == e;
                assert(rs[k + 1].doc.id == e);
            }
        }
        assert(forall|j: int|
            1 <= j < pos_of_ext(rs, e) ==> (#[trigger] rs[j]).doc.id == rs.drop_first()[j
                - 1].doc.id);
    }
}

/// The first position for internal id `i`, likewise.
pub proof fn lemma_pos_of_iid(rs: Seq<RecordView>, i: u64)
    ensures
        has_iid(rs, i) ==> 0 <= pos_of_iid(rs, i) < rs.len() && rs[pos_of_iid(rs, i)].internal_id
            == i,
        !has_iid(rs, i) ==> pos_of_iid(rs, i) == rs.len(),
        forall|j: int| 0 <= j < pos_of_iid(rs, i) ==> (#[trigger] rs[j]).internal_id != i,
    decreases rs.len(),
{
    if rs.len() == 0 {
    } else if rs[0].internal_id == i {
    } else {
        lemma_pos_of_iid(rs.drop_first(), i);
        assert(has_iid(rs, i) <==> has_iid(rs.drop_first(), i)) by {
            if has_iid(rs, i) {
                let k = choose|k: int| 0 <= k < rs.len() && (#[trigger] rs[k]).internal_id == i;
                assert(k > 0);
                assert(rs.drop_first()[k - 1].internal_id == i);
            }
            if has_iid(rs.drop_first(), i) {
                let k = choose|k: int|
                    0 <= k < rs.drop_first().len() && (#[trigger] rs.drop_first()[k]).internal_id
                        == i;
                assert(rs[k + 1].internal_id == i);
            }
        }
        assert(forall|j: int|
            1 <= j < pos_of_iid(rs, i) ==> (#[trigger] rs[j]).internal_id == rs.drop_first()[j
                - 1].internal_id);
    }
}

/// The identity map and document store.
pub struct Store {
    records: Vec<Record>,
    next_id: u64,
}

impl Store {
    /// The live records, in insertion order.
    pub closed spec fn recs(&self) -> Seq<RecordView> {
        rec_views(self.records@)
    }

    /// The monotonic counter: the internal id the next insertion receives.
    pub closed spec fn next(&self) -> u64 {
        self.next_id
    }

    /// The store's invariant.
    pub open spec fn wf(&self) -> bool {
        store_wf(self.recs(), self.next())
    }

    /// An empty store with the counter at zero.
    pub fn new() -> (r: Self)
        ensures
            r.recs() == Seq::<RecordView>::empty(),
            r.next() == 0,
            r.wf(),
    {
        let r = Store { records: Vec::new(), next_id: 0 };
        proof {
            assert(r.recs() =~= Seq::<RecordView>::empty());
        }
        r
    }

    /// The internal id the next insertion receives.
    pub fn next_internal_id(&self) -> (r: u64)
        ensures
            r == self.next(),
    {
        self.next_id
    }

    /// The number of live records.
    pub fn len(&self) -> (r: usize)
        ensures
            r == self.recs().len(),
    {
        self.records.len()
    }

    /// The record at a position, for iteration in insertion order.
    pub fn record_at(&self, k: usize) -> (r: &Record)
        requires
            k < self.recs().len(),
        ensures
            r@ == self.recs()[k as int],
    {
        &self.records[k]
    }

    /// The internal id of the record with external id `external_id`, when
    /// one is live.
    pub fn resolve(&self, external_id: &str) -> (r: Option<u64>)
        ensures
            r == resolve_spec(self.recs(), external_id@),
    {
        let ghost rs = self.recs();
        let mut k: usize = 0;
        while k < self.records.len()
            invariant
                rs == self.recs(),
                self.records@.len() == rs.len(),
                k <= rs.len(),
                forall|j: int| 0 <= j < k ==> (#[trigger] rs[j]).doc.id != external_id@,
            decreases rs.len() - k,
        {
            if str_eq(self.records[k].doc.id.as_str(), external_id) {
                proof {
                    assert(rs[k as int].doc.id == external_id@);
                    lemma_pos_of_ext(rs, external_id@);
                    assert(pos_of_ext(rs, external_id@) == k as int) by {
                        let p = pos_of_ext(rs, external_id@);
                        if p < k as int {
                            assert(rs[p].doc.id != external_id@);
                        }
                        if p > k as int {
                            assert(rs[k as int].doc.id != external_id@);
                        }
                    }
                }
                return Some(self.records[k].internal_id);
            }
            k = k + 1;
        }
        proof {
            assert(!has_ext(rs, external_id@)) by {
                if has_ext(rs, external_id@) {
                    let j = choose|j: int|
                        0 <= j < rs.len() && (#[trigger] rs[j]).doc.id == external_id@;
                    assert(rs[j].doc.id != external_id@);
                }
            }
        }
        None
    }

    /// The stored document with internal id `internal_id`, when one is live.
    pub fn get(&self, internal_id: u64) -> (r: Option<&StoredScene>)
        ensures
            match r {
                Some(d) => has_iid(self.recs(), internal_id) && d@ == self.recs()[pos_of_iid(
                    self.recs(),
                    internal_id,
                )].doc,
                None => !has_iid(self.recs(), internal_id),
            },
    {
        let ghost rs = self.recs();
        let mut k: usize = 0;
        while k < self.records.len()
            invariant
                rs == self.recs(),
                self.records@.len() == rs.len(),
                k <= rs.len(),
                forall|j: int| 0 <= j < k ==> (#[trigger] rs[j]).internal_id != internal_id,
            decreases rs.len() - k,
        {
            if self.records[k].internal_id == internal_id {
                proof {
                    assert(rs[k as int].internal_id == internal_id);
                    lemma_pos_of_iid(rs, internal_id);
                    assert(pos_of_iid(rs, internal_id) == k as int) by {
                        let p = pos_of_iid(rs, internal_id);
                        if p < k as int {
                            assert(rs[p].internal_id != internal_id);
                        }
                        if p > k as int {
                            assert(rs[k as int].internal_id != internal_id);
                        }
                    }
                }
                return Some(&self.records[k].doc);
            }
            k = k + 1;
        }
        proof {
            assert(!has_iid(rs, internal_id)) by {
                if has_iid(rs, internal_id) {
                    let j = choose|j: int|
                        0 <= j < rs.len() && (#[trigger] rs[j]).internal_id == internal_id;
                    assert(rs[j].internal_id != internal_id);
                }
            }
        }
        None
    }

    /// Insert a document under a fresh internal id, first removing any live
    /// record with the same external id. Returns the assigned internal id.
    pub fn put(&mut self, doc: StoredScene, lexemes: Vec<Vec<char>>) -> (r: u64)
        requires
            old(self).wf(),
            old(self).next() < u64::MAX,
        ensures
            r == old(self).next(),
            final(self).next() == old(self).next() + 1,
            final(self).recs() == remove_ext(old(self).recs(), doc.id@).push(
                (RecordView { doc: doc@, internal_id: old(self).next(), lex: views_of(lexemes@) }),
            ),
            final(self).wf(),
    {
        let ghost rs0 = self.recs();
        let ghost e = doc.id@;
        let removed = self.remove_by_ext_pos(&doc.id.clone());
        proof {
            lemma_pos_of_ext(rs0, e);
        }
        let id = self.next_id;
        let record = Record { doc, internal_id: id, lexemes };
        self.records.push(record);
        self.next_id = self.next_id + 1;
        proof {
            let mid = remove_ext(rs0, e);
            assert(self.recs() =~= mid.push(
                (RecordView { doc: record.doc@, internal_id: id, lex: views_of(record.lexemes@) }),
            ));
            lemma_remove_ext_wf(rs0, e, old(self).next());
            assert(store_wf(self.recs(), self.next())) by {
                let new = self.recs();
                assert(forall|j: int| 0 <= j < mid.len() ==> #[trigger] new[j] == mid[j]);
                assert(new[new.len() - 1].internal_id == id);
                assert(forall|j: int|
                    0 <= j < mid.len() ==> (#[trigger] mid[j]).internal_id < id);
                assert(forall|j: int| 0 <= j < mid.len() ==> (#[trigger] mid[j]).doc.id != e);
            }
        }
        id
    }

    /// Remove the record with external id `external_id` from the store.
    /// Returns its internal id, or `None` when the id is unknown; the
    /// counter is not changed.
    pub fn remove(&mut self, external_id: &str) -> (r: Option<u64>)
        requires
            old(self).wf(),
        ensures
            r == resolve_spec(old(self).recs(), external_id@),
            final(self).recs() == remove_ext(old(self).recs(), external_id@),
            final(self).next() == old(self).next(),
            final(self).wf(),
    {
        let r = self.remove_by_ext_pos(external_id);
        proof {
            lemma_remove_ext_wf(old(self).recs(), external_id@, old(self).next());
        }
        r
    }

    /// Shared removal: drop the first record with the given external id.
    fn remove_by_ext_pos(&mut self, external_id: &str) -> (r: Option<u64>)
        requires
            old(self).wf(),
        ensures
            r == resolve_spec(old(self).recs(), external_id@),
            final(self).recs() == remove_ext(old(self).recs(), external_id@),
            final(self).next() == old(self).next(),
    {
        let ghost rs = self.recs();
        let mut k: usize = 0;
        while k < self.records.len()
            invariant
                rs == self.recs(),
                rs == old(self).recs(),
                self.next_id == old(self).next(),
                self.records@.len() == rs.len(),
                k <= rs.len(),
                forall|j: int| 0 <= j < k ==> (#[trigger] rs[j]).doc.id != external_id@,
            decreases rs.len() - k,
        {
            if str_eq(self.records[k].doc.id.as_str(), external_id) {
                proof {
                    assert(rs[k as int].doc.id == external_id@);
                    lemma_pos_of_ext(rs, external_id@);
                    assert(pos_of_ext(rs, external_id@) == k as int) by {
                        let p = pos_of_ext(rs, external_id@);
                        if p < k as int {
                            assert(rs[p].doc.id != external_id@);
                        }
                        if p > k as int {
                            assert(rs[k as int].doc.id != external_id@);
                        }
                    }
                }
                let rec = self.records.remove(k);
                proof {
                    assert(self.recs() =~= rs.remove(k as int));
                }
                return Some(rec.internal_id);
            }
            k = k + 1;
        }
        proof {
            assert(!has_ext(rs, external_id@)) by {
                if has_ext(rs, external_id@) {
                    let j = choose|j: int|
                        0 <= j < rs.len() && (#[trigger] rs[j]).doc.id == external_id@;
                    assert(rs[j].doc.id != external_id@);
                }
            }
            assert(self.recs() =~= remove_ext(rs, external_id@));
        }
        None
    }

    /// Overwrite the record that carries `internal_id` in place: same
    /// internal id, same position, new stored document and lexemes. The
    /// document must keep the record's external id.
    pub fn replace(&mut self, internal_id: u64, doc: StoredScene, lexemes: Vec<Vec<char>>)
        requires
            old(self).wf(),
            has_iid(old(self).recs(), internal_id),
            doc.id@ == old(self).recs()[pos_of_iid(old(self).recs(), internal_id)].doc.id,
        ensures
            final(self).recs() == old(self).recs().update(
                pos_of_iid(old(self).recs(), internal_id),
                (RecordView { doc: doc@, internal_id: internal_id, lex: views_of(lexemes@) }),
            ),
            final(self).next() == old(self).next(),
            final(self).wf(),
    {
        let ghost rs = self.recs();
        proof {
            lemma_pos_of_iid(rs, internal_id);
        }
        let mut k: usize = 0;
        while k < self.records.len()
            invariant
                rs == self.recs(),
                rs == old(self).recs(),
                self.next_id == old(self).next(),
                self.records@.len() == rs.len(),
                k <= rs.len(),
                store_wf(rs, self.next_id),
                has_iid(rs, internal_id),
                0 <= pos_of_iid(rs, internal_id) < rs.len(),
                forall|j: int| 0 <= j < pos_of_iid(rs, internal_id) ==> (#[trigger] rs[j]).internal_id
                    != internal_id,
                rs[pos_of_iid(rs, internal_id)].internal_id == internal_id,
                doc.id@ == rs[pos_of_iid(rs, internal_id)].doc.id,
                forall|j: int| 0 <= j < k ==> (#[trigger] rs[j]).internal_id != internal_id,
            decreases rs.len() - k,
        {
            if self.records[k].internal_id == internal_id {
                proof {
                    assert(rs[k as int].internal_id == internal_id);
                    assert(pos_of_iid(rs, internal_id) == k as int) by {
                        let p = pos_of_iid(rs, internal_id);
                        if p < k as int {
                            assert(rs[p].internal_id != internal_id);
                        }
                        if p > k as int {
                            assert(rs[k as int].internal_id != internal_id);
                        }
                    }
                }
                let ghost entries_pre = self.records@;
                let _old_rec = self.records.remove(k);
                let new_rec = Record { doc, internal_id, lexemes };
                self.records.insert(k, new_rec);
                proof {
                    assert(self.records@ =~= entries_pre.update(k as int, new_rec));
                    assert(self.recs() =~= rs.update(
                        k as int,
                        (RecordView {
                            doc: new_rec.doc@,
                            internal_id: internal_id,
                            lex: views_of(new_rec.lexemes@),
                        }),
                    ));
                    assert(store_wf(self.recs(), self.next())) by {
                        let new = self.recs();
                        assert(forall|j: int|
                            0 <= j < new.len() ==> (#[trigger] new[j]).internal_id
                                == rs[j].internal_id);
                        assert(forall|j: int|
                            0 <= j < new.len() ==> (#[trigger] new[j]).doc.id == rs[j].doc.id);
                    }
                }
                return ;
            }
            k = k + 1;
        }
        proof {
            assert(false);
        }
    }

    /// Empty the store and reset the internal-id counter to zero.
    pub fn clear(&mut self)
        ensures
            final(self).recs() == Seq::<RecordView>::empty(),
            final(self).next() == 0,
            final(self).wf(),
    {
        self.records.clear();
        self.next_id = 0;
        proof {
            assert(self.recs() =~= Seq::<RecordView>::empty());
        }
    }
}

/// Removing the record for one external id keeps the order invariants and
/// leaves no record with that id.
pub proof fn lemma_remove_ext_wf(rs: Seq<RecordView>, e: Seq<char>, next: u64)
    requires
        store_wf(rs, next),
    ensures
        store_wf(remove_ext(rs, e), next),
        forall|j: int|
            0 <= j < remove_ext(rs, e).len() ==> (#[trigger] remove_ext(rs, e)[j]).doc.id != e,
        forall|j: int|
            0 <= j < remove_ext(rs, e).len() ==> exists|l: int|
                0 <= l < rs.len() && #[trigger] remove_ext(rs, e)[j] == rs[l],
{
    lemma_pos_of_ext(rs, e);
    if has_ext(rs, e) {
        let p = pos_of_ext(rs, e);
        let new = rs.remove(p);
        assert(forall|j: int| 0 <= j < p ==> #[trigger] new[j] == rs[j]);
        assert(forall|j: int| p <= j < new.len() ==> #[trigger] new[j] == rs[j + 1]);
        assert forall|j: int| 0 <= j < new.len() implies (#[trigger] new[j]).doc.id != e by {
            if j < p {
                assert(new[j] == rs[j]);
            } else {
                assert(new[j] == rs[j + 1]);
                assert(rs[p].doc.id == e);
                assert(rs[p].doc.id != rs[j + 1].doc.id);
            }
        }
        assert forall|j: int| 0 <= j < new.len() implies exists|l: int|
            0 <= l < rs.len() && #[trigger] new[j] == rs[l] by {
            if j < p {
                assert(new[j] == rs[j]);
            } else {
                assert(new[j] == rs[j + 1]);
            }
        }
    } else {
        assert forall|j: int| 0 <= j < rs.len() implies (#[trigger] rs[j]).doc.id != e by {
            if rs[j].doc.id == e {
                assert(has_ext(rs, e));
            }
        }
        assert(forall|j: int| 0 <= j < rs.len() ==> #[trigger] rs[j] == rs[j]);
    }
}

} // verus!
