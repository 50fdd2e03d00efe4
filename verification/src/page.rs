use vstd::prelude::*;

verus! {

/// A slice request over a full ordered listing: `number` is the page number
/// (starting from 0) and `size` the maximum number of records per page. The
/// storage skips `number * size` records and returns at most `size` of the
/// remainder.
#[derive(Clone, Copy, PartialEq, Eq, Structural, Debug)]
pub struct Page {
    /// Page number (starting from 0).
    pub number: u32,
    /// Results per page.
    pub size: u32,
}

impl Page {
    /// Creates a new page request.
    pub fn new(number: u32, size: u32) -> (r: Page)
        ensures
            r == (Page { number, size }),
    {
        Page { number, size }
    }

    /// The number of records to skip for this page: `number * size`.
    pub fn offset(&self) -> (r: u32)
        requires
            self.number * self.size <= u32::MAX,
        ensures
            r == self.number * self.size,
    {
        self.number * self.size
    }
}

/// The direction in which the records' total order is applied by a listing.
#[allow(non_camel_case_types)]
#[derive(Clone, Copy, PartialEq, Eq, Structural, Debug)]
pub enum Sort {
    ASCENDING,
    DESCENDING,
}

} // verus!
