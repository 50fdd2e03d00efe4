use vstd::prelude::*;
use crate::listing::{is_full_listing, page_slice, page_window};
use crate::record::{Record, record_leq};

verus! {

broadcast use vstd::seq_lib::group_to_multiset_ensures, vstd::multiset::group_multiset_axioms;

/// Round-trip: saving an entity leaves the state `db.insert(e.id, e)`, and a
/// lookup of `e.get_id()` on that state finds an entry equal to `e`.
pub proof fn lemma_save_then_find(db: Map<u64, Record>, e: Record)
    ensures
        db.insert(e.id, e).contains_key(e.id),
        db.insert(e.id, e)[e.id] == e,
{
}

/// Overwrite: saving `e1` and then `e2` under a shared key leaves exactly
/// the state that saving `e2` alone leaves, with the one entry under that
/// key equal to `e2`.
pub proof fn lemma_save_overwrites(db: Map<u64, Record>, e1: Record, e2: Record)
    requires
        e1.id == e2.id,
    ensures
        db.insert(e1.id, e1).insert(e2.id, e2) == db.insert(e2.id, e2),
        db.insert(e1.id, e1).insert(e2.id, e2)[e2.id] == e2,
{
    assert(db.insert(e1.id, e1).insert(e2.id, e2) =~= db.insert(e2.id, e2));
}

/// Idempotent delete: removing a key twice leaves the same state as
/// removing it once, and the key is absent afterwards. Neither call errors,
/// since `remove_by_id` always returns `Ok`.
pub proof fn lemma_remove_idempotent(db: Map<u64, Record>, id: u64)
    ensures
        db.remove(id).remove(id) == db.remove(id),
        !db.remove(id).contains_key(id),
{
    assert(db.remove(id).remove(id) =~= db.remove(id));
}

/// Update of an absent key creates the entry: the state gains exactly the
/// binding from `e.id` to `e`, and every other binding is unchanged.
pub proof fn lemma_update_absent_creates(db: Map<u64, Record>, e: Record)
    requires
        !db.contains_key(e.id),
    ensures
        db.insert(e.id, e).contains_key(e.id),
        db.insert(e.id, e)[e.id] == e,
        db.insert(e.id, e).dom() == db.dom().insert(e.id),
        forall|k: u64|
            db.contains_key(k) && k != e.id ==> #[trigger] db.insert(e.id, e)[k] == db[k],
{
    assert(db.insert(e.id, e).dom() =~= db.dom().insert(e.id));
}

/// A mapping has exactly one full listing: any two sequences that each list
/// it completely in ascending order are equal.
pub proof fn lemma_full_listing_unique(db: Map<u64, Record>, s1: Seq<Record>, s2: Seq<Record>)
    requires
        is_full_listing(db, s1),
        is_full_listing(db, s2),
    ensures
        s1 == s2,
{
    crate::record::lemma_record_le_total_ordering();
    s1.lemma_multiset_has_no_duplicates();
    s2.lemma_multiset_has_no_duplicates();
    assert forall|e: Record| s1.to_multiset().count(e) == s2.to_multiset().count(e) by {
        assert(s1.contains(e) <==> s2.contains(e));
        assert(s1.contains(e) <==> s1.to_multiset().count(e) > 0);
        assert(s2.contains(e) <==> s2.to_multiset().count(e) > 0);
    }
    assert(s1.to_multiset() =~= s2.to_multiset());
    vstd::seq_lib::lemma_sorted_unique(s1, s2, record_leq());
}

/// The full listing of a mapping whose entries are keyed by their own id
/// has one record for each entry: its length is the number of entries.
pub proof fn lemma_full_listing_len(db: Map<u64, Record>, full: Seq<Record>)
    requires
        is_full_listing(db, full),
        forall|k: u64| #[trigger] db.contains_key(k) ==> db[k].id == k,
    ensures
        full.len() == db.dom().len(),
{
    broadcast use vstd::set::group_set_axioms;

    let ids = full.map_values(|r: Record| r.id);
    assert forall|i: int, j: int|
        0 <= i < ids.len() && 0 <= j < ids.len() && i != j implies ids[i] != ids[j] by {
        assert(full.contains(full[i]));
        assert(full.contains(full[j]));
        if full[i].id == full[j].id {
            assert(full[i] == db[full[i].id]);
            assert(full[j] == db[full[j].id]);
            assert(full[i] == full[j]);
        }
    }
    assert(ids.no_duplicates());
    ids.unique_seq_to_set();
    assert forall|k: u64| #[trigger] ids.to_set().contains(k) implies db.contains_key(k) by {
        let i = choose|i: int| 0 <= i < ids.len() && ids[i] == k;
        assert(full.contains(full[i]));
    }
    assert forall|k: u64| #[trigger] db.contains_key(k) implies ids.to_set().contains(k) by {
        let r = db[k];
        assert(r.id == k);
        assert(full.contains(r));
        let i = choose|i: int| 0 <= i < full.len() && full[i] == r;
        assert(ids[i] == k);
    }
    assert(ids.to_set() =~= db.dom());
}

/// Pagination count: a page window holds `size` records when `offset + size`
/// records exist, all the records past `offset` when fewer exist, and none
/// when `offset` lies at or past the end.
pub proof fn lemma_page_window_len(s: Seq<Record>, offset: nat, size: nat)
    ensures
        page_window(s, offset, size).len() == if offset >= s.len() {
            0nat
        } else if offset + size <= s.len() {
            size
        } else {
            (s.len() - offset) as nat
        },
{
}

/// Pagination count: a paginated listing of a full listing of `n` records
/// holds `size` records when `offset + size <= n`, the `n - offset` records
/// past `offset` when `offset` lies inside the listing, and none when
/// `offset` lies at or past the end — in either direction of the sort.
pub proof fn lemma_page_slice_len(full: Seq<Record>, descending: bool, offset: nat, size: nat)
    ensures
        page_slice(full, descending, offset, size).len() == if offset >= full.len() {
            0nat
        } else if offset + size <= full.len() {
            size
        } else {
            (full.len() - offset) as nat
        },
{
    if descending {
        assert(full.reverse().len() == full.len());
    }
}

/// Pagination contiguity: the page window is the contiguous run of the
/// ordered listing that starts at position `offset`.
pub proof fn lemma_page_window_contiguous(s: Seq<Record>, offset: nat, size: nat)
    ensures
        forall|i: int|
            0 <= i < page_window(s, offset, size).len() ==> #[trigger] page_window(
                s,
                offset,
                size,
            )[i] == s[offset + i],
{
}

} // verus!
