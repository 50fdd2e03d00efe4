use vstd::prelude::*;

verus! {

/// An entity as this storage understands it: a plain value carrying its own
/// identity key (`id`) together with a data payload. The storage keeps
/// independent copies of whatever is inserted, so a caller's record and a
/// stored record never alias.
#[derive(Clone, Copy, PartialEq, Eq, Structural, Debug)]
pub struct Record {
    pub id: u64,
    pub data: u64,
}

impl Record {
    pub fn new(id: u64, data: u64) -> (r: Record)
        ensures
            r == (Record { id, data }),
    {
        Record { id, data }
    }

    /// The identity key under which this record is stored and looked up.
    pub fn get_id(&self) -> (r: u64)
        ensures
            r == self.id,
    {
        self.id
    }
}

/// The total order on records used by the listing operations:
/// lexicographic on the pair (id, data).
pub open spec fn record_le(a: Record, b: Record) -> bool {
    a.id < b.id || (a.id == b.id && a.data <= b.data)
}

/// `record_le` as a relation value, for use with ordering predicates on
/// sequences.
pub open spec fn record_leq() -> spec_fn(Record, Record) -> bool {
    |a: Record, b: Record| record_le(a, b)
}

/// `record_le` is a total order: reflexive, antisymmetric, transitive and
/// strongly connected.
pub proof fn lemma_record_le_total_ordering()
    ensures
        vstd::relations::total_ordering(record_leq()),
{
}

/// Executable comparison deciding `record_le`.
pub fn record_le_exec(a: &Record, b: &Record) -> (r: bool)
    ensures
        r == record_le(*a, *b),
{
    a.id < b.id || (a.id == b.id && a.data <= b.data)
}

} // verus!
