use vstd::prelude::*;
use vstd::relations::sorted_by;
use crate::record::{Record, record_le, record_leq, record_le_exec};

verus! {

broadcast use vstd::seq_lib::group_to_multiset_ensures, vstd::multiset::group_multiset_axioms;

/// `full` is the complete listing of the mapping `db`: the stored records,
/// each exactly once, in ascending order of the records' total order.
pub open spec fn is_full_listing(db: Map<u64, Record>, full: Seq<Record>) -> bool {
    &&& sorted_by(full, record_leq())
    &&& full.no_duplicates()
    &&& forall|r: Record|
        #[trigger] full.contains(r) <==> (db.contains_key(r.id) && db[r.id] == r)
}

/// The window a page request cuts out of an ordered listing: skip `offset`
/// records, then take at most `size` of the remainder, truncating at the end.
pub open spec fn page_window(s: Seq<Record>, offset: nat, size: nat) -> Seq<Record> {
    let start = if offset <= s.len() { offset } else { s.len() };
    let end = if offset + size <= s.len() { offset + size } else { s.len() };
    s.subrange(start as int, end as int)
}

/// The records a paginated listing returns: the full ascending listing,
/// reversed when descending order was asked for, cut down to the requested
/// window.
pub open spec fn page_slice(full: Seq<Record>, descending: bool, offset: nat, size: nat) -> Seq<
    Record,
> {
    page_window(if descending { full.reverse() } else { full }, offset, size)
}

/// Sorts records into ascending order of the records' total order,
/// preserving the records as a multiset.
pub fn sort_records(v: &Vec<Record>) -> (r: Vec<Record>)
    ensures
        sorted_by(r@, record_leq()),
        r@.to_multiset() == v@.to_multiset(),
{
    let mut rest: Vec<Record> = Vec::new();
    let mut i: usize = 0;
    while i < v.len()
        invariant
            i <= v@.len(),
            rest@ =~= v@.subrange(0, i as int),
        decreases v@.len() - i,
    {
        rest.push(v[i]);
        i = i + 1;
    }
    proof {
        assert(rest@ =~= v@);
    }
    let mut out: Vec<Record> = Vec::new();
    proof {
        assert forall|e: Record| out@.to_multiset().count(e) == 0nat by {
            assert(!out@.contains(e));
            assert(!(out@.to_multiset().count(e) > 0));
        }
        assert(out@.to_multiset().add(rest@.to_multiset()) =~= v@.to_multiset());
    }
    while rest.len() > 0
        invariant
            sorted_by(out@, record_leq()),
            out@.to_multiset().add(rest@.to_multiset()) == v@.to_multiset(),
            forall|a: int, b: int|
                0 <= a < out@.len() && 0 <= b < rest@.len() ==> record_le(
                    #[trigger] out@[a],
                    #[trigger] rest@[b],
                ),
        decreases rest@.len(),
    {
        // Find the index of a least remaining record.
        let mut m: usize = 0;
        let mut j: usize = 1;
        while j < rest.len()
            invariant
                rest@.len() > 0,
                m < j,
                j <= rest@.len(),
                forall|k: int| 0 <= k < j ==> record_le(rest@[m as int], #[trigger] rest@[k]),
            decreases rest@.len() - j,
        {
            if record_le_exec(&rest[j], &rest[m]) {
                m = j;
            }
            j = j + 1;
        }
        let ghost pre_out: Seq<Record> = out@;
        let ghost pre_rest: Seq<Record> = rest@;
        let x = rest.remove(m);
        proof {
            assert(pre_rest[m as int] == x);
            assert(pre_rest.contains(x));
            assert(pre_rest.to_multiset().count(x) > 0);
            assert(rest@ == pre_rest.remove(m as int));
            assert(pre_rest.remove(m as int).to_multiset() =~= pre_rest.to_multiset().remove(x));
        }
        out.push(x);
        proof {
            assert(out@ =~= pre_out.push(x));
            assert(pre_out.push(x).to_multiset() =~= pre_out.to_multiset().insert(x));
            assert forall|e: Record|
                out@.to_multiset().add(rest@.to_multiset()).count(e) == pre_out.to_multiset().add(
                    pre_rest.to_multiset(),
                ).count(e) by {
                assert(out@.to_multiset().count(e) == pre_out.to_multiset().insert(x).count(e));
                assert(rest@.to_multiset().count(e) == pre_rest.to_multiset().remove(x).count(e));
            }
            assert(out@.to_multiset().add(rest@.to_multiset()) =~= pre_out.to_multiset().add(
                pre_rest.to_multiset(),
            ));
            assert forall|a: int, b: int|
                0 <= a < out@.len() && 0 <= b < rest@.len() implies record_le(
                #[trigger] out@[a],
                #[trigger] rest@[b],
            ) by {
                assert(rest@[b] == pre_rest[b] || rest@[b] == pre_rest[b + 1]);
                assert(record_le(x, rest@[b]));
            }
            assert(sorted_by(out@, record_leq()));
        }
    }
    proof {
        assert(out@.to_multiset() =~= v@.to_multiset());
    }
    out
}

/// Returns the records of `v` in the opposite order.
pub fn reverse_records(v: &Vec<Record>) -> (r: Vec<Record>)
    ensures
        r@ == v@.reverse(),
{
    let mut r: Vec<Record> = Vec::new();
    let mut i: usize = v.len();
    while i > 0
        invariant
            i <= v@.len(),
            r@ =~= v@.reverse().subrange(0, v@.len() - i),
        decreases i,
    {
        i = i - 1;
        r.push(v[i]);
        proof {
            assert(r@ =~= v@.reverse().subrange(0, v@.len() - i));
        }
    }
    proof {
        assert(r@ =~= v@.reverse());
    }
    r
}

/// Copies the requested window out of an ordered listing.
pub fn take_page(v: &Vec<Record>, offset: usize, size: usize) -> (r: Vec<Record>)
    ensures
        r@ == page_window(v@, offset as nat, size as nat),
{
    let start: usize = if offset < v.len() {
        offset
    } else {
        v.len()
    };
    let remaining: usize = v.len() - start;
    let take: usize = if size < remaining {
        size
    } else {
        remaining
    };
    let mut r: Vec<Record> = Vec::new();
    let mut k: usize = 0;
    while k < take
        invariant
            k <= take,
            start + take <= v@.len(),
            v@.len() <= usize::MAX,
            r@ =~= v@.subrange(start as int, start + k),
        decreases take - k,
    {
        r.push(v[start + k]);
        k = k + 1;
        proof {
            assert(r@ =~= v@.subrange(start as int, start + k));
        }
    }
    proof {
        assert(r@ =~= page_window(v@, offset as nat, size as nat));
    }
    r
}

} // verus!
