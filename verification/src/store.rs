use vstd::prelude::*;
use vstd::string::StringExecFns;
use crate::listing::{
    is_full_listing, page_slice, reverse_records, sort_records, take_page,
};
use crate::page::{Page, Sort};
use crate::record::{Record, record_leq};
use crate::text::{decimal_of, key_to_string};

verus! {

broadcast use vstd::seq_lib::group_to_multiset_ensures, vstd::multiset::group_multiset_axioms;

/// The one domain error of this storage: a lookup under a key that has no
/// entry. It carries the decimal text of the missing key.
#[derive(Debug)]
pub enum InMemoryStorageError {
    EntityNotFound { entity_id: String },
}

/// The human-readable text of an error: the sentence naming the missing key.
pub open spec fn message_of(e: InMemoryStorageError) -> Seq<char> {
    match e {
        InMemoryStorageError::EntityNotFound { entity_id } => "Entity with id "@ + entity_id@
            + " was not found"@,
    }
}

impl InMemoryStorageError {
    /// Renders the error as its human-readable message.
    pub fn message(&self) -> (r: String)
        ensures
            r@ == message_of(*self),
    {
        match self {
            InMemoryStorageError::EntityNotFound { entity_id } => {
                let mut m = String::from_str("Entity with id ");
                m.append(entity_id.as_str());
                m.append(" was not found");
                m
            },
        }
    }
}

/// The mapping that a sequence of records denotes when the records are
/// saved in order: a record overwrites any earlier record sharing its key.
pub open spec fn map_of_records(s: Seq<Record>) -> Map<u64, Record>
    decreases s.len(),
{
    if s.len() == 0 {
        Map::empty()
    } else {
        map_of_records(s.drop_last()).insert(s.last().id, s.last())
    }
}

/// No two records of the sequence share a key.
spec fn unique_ids(s: Seq<Record>) -> bool {
    forall|i: int, j: int| 0 <= i < j < s.len() ==> s[i].id != s[j].id
}

proof fn lemma_map_of_contains(s: Seq<Record>, k: u64)
    ensures
        map_of_records(s).contains_key(k) <==> exists|i: int|
            0 <= i < s.len() && #[trigger] s[i].id == k,
    decreases s.len(),
{
    if s.len() > 0 {
        lemma_map_of_contains(s.drop_last(), k);
        if s.last().id == k {
            assert(s[s.len() - 1].id == k);
        } else if map_of_records(s).contains_key(k) {
            let i = choose|i: int| 0 <= i < s.drop_last().len() && #[trigger] s.drop_last()[i].id
                == k;
            assert(s[i].id == k);
        } else {
            assert forall|i: int| 0 <= i < s.len() implies #[trigger] s[i].id != k by {
                if i < s.len() - 1 {
                    assert(s.drop_last()[i].id != k);
                }
            }
        }
    }
}

proof fn lemma_map_of_get(s: Seq<Record>, i: int)
    requires
        unique_ids(s),
        0 <= i < s.len(),
    ensures
        map_of_records(s).contains_key(s[i].id),
        map_of_records(s)[s[i].id] == s[i],
    decreases s.len(),
{
    if i < s.len() - 1 {
        assert(unique_ids(s.drop_last()));
        assert(s.drop_last()[i] == s[i]);
        lemma_map_of_get(s.drop_last(), i);
        assert(s[i].id != s.last().id);
    }
}

proof fn lemma_map_of_push(s: Seq<Record>, r: Record)
    ensures
        map_of_records(s.push(r)) == map_of_records(s).insert(r.id, r),
{
    assert(s.push(r).drop_last() =~= s);
    assert(s.push(r).last() == r);
}

proof fn lemma_unique_ids_remove(s: Seq<Record>, i: int)
    requires
        unique_ids(s),
        0 <= i < s.len(),
    ensures
        unique_ids(s.remove(i)),
{
    assert forall|a: int, b: int| 0 <= a < b < s.remove(i).len() implies s.remove(i)[a].id
        != s.remove(i)[b].id by {
        let a0 = if a < i { a } else { a + 1 };
        let b0 = if b < i { b } else { b + 1 };
        assert(s.remove(i)[a] == s[a0]);
        assert(s.remove(i)[b] == s[b0]);
    }
}

proof fn lemma_map_of_remove(s: Seq<Record>, i: int)
    requires
        unique_ids(s),
        0 <= i < s.len(),
    ensures
        map_of_records(s.remove(i)) == map_of_records(s).remove(s[i].id),
    decreases s.len(),
{
    if i == s.len() - 1 {
        assert(s.remove(i) =~= s.drop_last());
        lemma_map_of_contains(s.drop_last(), s[i].id);
        assert forall|j: int| 0 <= j < s.drop_last().len() implies #[trigger] s.drop_last()[j].id
            != s[i].id by {
            assert(s[j].id != s[i].id);
        }
        assert(!map_of_records(s.drop_last()).contains_key(s[i].id));
        assert(map_of_records(s).remove(s[i].id) =~= map_of_records(s.drop_last()));
    } else {
        assert(unique_ids(s.drop_last()));
        lemma_map_of_remove(s.drop_last(), i);
        assert(s.remove(i).drop_last() =~= s.drop_last().remove(i));
        assert(s.remove(i).last() == s.last());
        assert(s.drop_last()[i] == s[i]);
        assert(s[i].id != s.last().id);
        assert(map_of_records(s.remove(i)) == map_of_records(s.drop_last()).remove(
            s[i].id,
        ).insert(s.last().id, s.last()));
        assert(map_of_records(s.drop_last()).remove(s[i].id).insert(s.last().id, s.last())
            =~= map_of_records(s.drop_last()).insert(s.last().id, s.last()).remove(s[i].id));
    }
}

proof fn lemma_map_of_dom_len(s: Seq<Record>)
    requires
        unique_ids(s),
    ensures
        map_of_records(s).dom().finite(),
        map_of_records(s).dom().len() == s.len(),
    decreases s.len(),
{
    broadcast use vstd::set_lib::group_set_properties, vstd::set::group_set_axioms;

    if s.len() > 0 {
        assert(unique_ids(s.drop_last()));
        lemma_map_of_dom_len(s.drop_last());
        lemma_map_of_contains(s.drop_last(), s.last().id);
        assert forall|j: int| 0 <= j < s.drop_last().len() implies #[trigger] s.drop_last()[j].id
            != s.last().id by {
            assert(s[j].id != s.last().id);
        }
        assert(!map_of_records(s.drop_last()).contains_key(s.last().id));
        assert(map_of_records(s).dom() =~= map_of_records(s.drop_last()).dom().insert(
            s.last().id,
        ));
    }
}

/// A record of the sequence is exactly a value of the mapping it denotes.
proof fn lemma_map_of_members(s: Seq<Record>, r: Record)
    requires
        unique_ids(s),
    ensures
        s.contains(r) <==> (map_of_records(s).contains_key(r.id) && map_of_records(s)[r.id]
            == r),
{
    lemma_map_of_contains(s, r.id);
    if s.contains(r) {
        let i = choose|i: int| 0 <= i < s.len() && s[i] == r;
        lemma_map_of_get(s, i);
    } else if map_of_records(s).contains_key(r.id) {
        let i = choose|i: int| 0 <= i < s.len() && #[trigger] s[i].id == r.id;
        lemma_map_of_get(s, i);
        assert(map_of_records(s)[r.id] == s[i]);
        assert(s[i] != r);
    }
}

/// An in-memory key-value store: a mapping from identity keys to records,
/// keyed by each record's own `id`, with no order persisted between
/// operations. Its abstract state, written `self@`, is a `Map<u64, Record>`.
pub struct InMemoryStorage {
    items: Vec<Record>,
}

impl View for InMemoryStorage {
    type V = Map<u64, Record>;

    closed spec fn view(&self) -> Map<u64, Record> {
        map_of_records(self.items@)
    }
}

impl InMemoryStorage {
    #[verifier::type_invariant]
    spec fn wf(self) -> bool {
        unique_ids(self.items@)
    }

    /// Creates a new empty in-memory storage.
    pub fn new() -> (r: Self)
        ensures
            r@ == Map::<u64, Record>::empty(),
    {
        InMemoryStorage { items: Vec::new() }
    }

    /// The index of the record stored under `id`, if there is one.
    fn index_of(&self, id: u64) -> (r: Option<usize>)
        ensures
            match r {
                Some(i) => i < self.items@.len() && self.items@[i as int].id == id,
                None => forall|j: int| 0 <= j < self.items@.len() ==> #[trigger] self.items@[j].id
                    != id,
            },
    {
        let mut i: usize = 0;
        while i < self.items.len()
            invariant
                i <= self.items@.len(),
                forall|j: int| 0 <= j < i ==> #[trigger] self.items@[j].id != id,
            decreases self.items@.len() - i,
        {
            if self.items[i].id == id {
                return Some(i);
            }
            i = i + 1;
        }
        None
    }

    /// Inserts or overwrites the entry keyed by the entity's own id with a
    /// copy of the entity. Always succeeds.
    pub fn save(&mut self, entity: &Record) -> (r: Result<(), InMemoryStorageError>)
        ensures
            final(self)@ == old(self)@.insert(entity.id, *entity),
            r is Ok,
    {
        let _ = self.remove_by_id(&entity.id);
        let ghost pre: Seq<Record> = self.items@;
        proof {
            use_type_invariant(&*self);
            lemma_map_of_contains(pre, entity.id);
            lemma_map_of_push(pre, *entity);
            assert(unique_ids(pre.push(*entity)));
        }
        let mut items: Vec<Record> = Vec::new();
        std::mem::swap(&mut items, &mut self.items);
        items.push(*entity);
        self.items = items;
        proof {
            assert(self@ =~= old(self)@.insert(entity.id, *entity));
        }
        Ok(())
    }

    /// Re-inserts the entity under its current id: an absent key is created,
    /// a present key is overwritten. Identical to `save`.
    pub fn update(&mut self, entity: &Record) -> (r: Result<(), InMemoryStorageError>)
        ensures
            final(self)@ == old(self)@.insert(entity.id, *entity),
            r is Ok,
    {
        self.save(entity)
    }

    /// Looks up the entry under `id` and returns a copy of it, or fails with
    /// `EntityNotFound` carrying the decimal text of `id` when there is none.
    pub fn find_by_id(&self, id: &u64) -> (r: Result<Record, InMemoryStorageError>)
        ensures
            self@.contains_key(*id) ==> (r matches Ok(v) && v == self@[*id]),
            !self@.contains_key(*id) ==> (r matches Err(e)
                && e matches InMemoryStorageError::EntityNotFound { entity_id }
                && entity_id@ == decimal_of(*id as nat)),
    {
        proof {
            use_type_invariant(&*self);
        }
        match self.index_of(*id) {
            Some(i) => {
                proof {
                    lemma_map_of_get(self.items@, i as int);
                }
                Ok(self.items[i])
            },
            None => {
                proof {
                    lemma_map_of_contains(self.items@, *id);
                }
                Err(InMemoryStorageError::EntityNotFound { entity_id: key_to_string(*id) })
            },
        }
    }

    /// Deletes the entry under `id` if present; succeeds either way, so
    /// deletion is idempotent.
    pub fn remove_by_id(&mut self, id: &u64) -> (r: Result<(), InMemoryStorageError>)
        ensures
            final(self)@ == old(self)@.remove(*id),
            r is Ok,
    {
        proof {
            use_type_invariant(&*self);
        }
        match self.index_of(*id) {
            Some(i) => {
                proof {
                    lemma_unique_ids_remove(self.items@, i as int);
                    lemma_map_of_remove(self.items@, i as int);
                }
                let mut items: Vec<Record> = Vec::new();
                std::mem::swap(&mut items, &mut self.items);
                let _ = items.remove(i);
                self.items = items;
            },
            None => {
                proof {
                    lemma_map_of_contains(self.items@, *id);
                    assert(self@.remove(*id) =~= self@);
                }
            },
        }
        Ok(())
    }

    /// Deletes the entry under the entity's own id, if present.
    pub fn remove(&mut self, entity: &Record) -> (r: Result<(), InMemoryStorageError>)
        ensures
            final(self)@ == old(self)@.remove(entity.id),
            r is Ok,
    {
        let id = entity.get_id();
        self.remove_by_id(&id)
    }

    /// The number of entries stored.
    pub fn len(&self) -> (n: usize)
        ensures
            n == self@.dom().len(),
    {
        proof {
            use_type_invariant(&*self);
            lemma_map_of_dom_len(self.items@);
        }
        self.items.len()
    }

    /// Creates a storage holding a copy of the one given entity.
    pub fn from_entity(entity: &Record) -> (r: Self)
        ensures
            r@ == Map::<u64, Record>::empty().insert(entity.id, *entity),
    {
        let mut r = Self::new();
        let _ = r.save(entity);
        r
    }

    /// Creates a storage by saving each given entity in order: a later
    /// entity overwrites an earlier one sharing its key.
    pub fn from_entities(values: &Vec<Record>) -> (r: Self)
        ensures
            r@ == map_of_records(values@),
    {
        let mut r = Self::new();
        let mut i: usize = 0;
        while i < values.len()
            invariant
                i <= values@.len(),
                r@ == map_of_records(values@.subrange(0, i as int)),
            decreases values@.len() - i,
        {
            let _ = r.save(&values[i]);
            i = i + 1;
            proof {
                assert(values@.subrange(0, i as int).drop_last() =~= values@.subrange(
                    0,
                    i - 1,
                ));
                assert(values@.subrange(0, i as int).last() == values@[i - 1]);
            }
        }
        proof {
            assert(values@.subrange(0, values@.len() as int) =~= values@);
        }
        r
    }

    /// Lists the stored records in ascending order of the records' total
    /// order, cut down to the requested page.
    pub fn find_all_with_page(&self, page: &Page) -> (r: Result<
        Vec<Record>,
        InMemoryStorageError,
    >)
        requires
            page.number * page.size <= u32::MAX,
        ensures
            r matches Ok(v) && exists|full: Seq<Record>|
                #[trigger] is_full_listing(self@, full) && v@ == page_slice(
                    full,
                    false,
                    (page.number * page.size) as nat,
                    page.size as nat,
                ),
    {
        self.find_all_with_page_and_sort(page, &Sort::ASCENDING)
    }

    /// Lists the stored records in the requested direction of the records'
    /// total order, cut down to the requested page: sorts a snapshot of the
    /// entries, reverses it for descending order, skips `page.number *
    /// page.size` records and returns at most `page.size` of the remainder.
    pub fn find_all_with_page_and_sort(&self, page: &Page, sort: &Sort) -> (r: Result<
        Vec<Record>,
        InMemoryStorageError,
    >)
        requires
            page.number * page.size <= u32::MAX,
        ensures
            r matches Ok(v) && exists|full: Seq<Record>|
                #[trigger] is_full_listing(self@, full) && v@ == page_slice(
                    full,
                    *sort is DESCENDING,
                    (page.number * page.size) as nat,
                    page.size as nat,
                ),
    {
        proof {
            use_type_invariant(&*self);
        }
        let sorted = sort_records(&self.items);
        proof {
            assert(is_full_listing(self@, sorted@)) by {
                lemma_sorted_records_form_listing(self.items@, sorted@);
            }
        }
        let descending = match sort {
            Sort::DESCENDING => true,
            Sort::ASCENDING => false,
        };
        let offset = page.offset();
        let out = if descending {
            let reversed = reverse_records(&sorted);
            take_page(&reversed, offset as usize, page.size as usize)
        } else {
            take_page(&sorted, offset as usize, page.size as usize)
        };
        proof {
            assert(out@ == page_slice(
                sorted@,
                *sort is DESCENDING,
                (page.number * page.size) as nat,
                page.size as nat,
            ));
        }
        Ok(out)
    }
}

impl Default for InMemoryStorage {
    /// The default storage is empty, as `new` yields it.
    fn default() -> (r: Self)
        ensures
            r@ == Map::<u64, Record>::empty(),
    {
        Self::new()
    }
}

/// A sorted copy of a backing sequence with unique keys is the full listing
/// of the mapping that the sequence denotes.
proof fn lemma_sorted_records_form_listing(items: Seq<Record>, sorted: Seq<Record>)
    requires
        unique_ids(items),
        vstd::relations::sorted_by(sorted, record_leq()),
        sorted.to_multiset() == items.to_multiset(),
    ensures
        is_full_listing(map_of_records(items), sorted),
{
    assert(items.no_duplicates()) by {
        assert forall|i: int, j: int|
            0 <= i < items.len() && 0 <= j < items.len() && i != j implies items[i]
            != items[j] by {
            assert(items[i].id != items[j].id);
        }
    }
    items.lemma_multiset_has_no_duplicates();
    sorted.lemma_multiset_has_no_duplicates_conv();
    assert forall|r: Record| true implies (#[trigger] sorted.contains(r) <==> items.contains(
        r,
    )) by {
        assert(sorted.contains(r) <==> sorted.to_multiset().count(r) > 0);
        assert(items.contains(r) <==> items.to_multiset().count(r) > 0);
    }
    assert forall|r: Record| true implies (#[trigger] sorted.contains(r) <==> (map_of_records(
        items,
    ).contains_key(r.id) && map_of_records(items)[r.id] == r)) by {
        lemma_map_of_members(items, r);
    }
}

} // verus!
