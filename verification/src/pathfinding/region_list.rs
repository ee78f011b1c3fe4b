//! The member list of an island is a `smallvec::SmallVec` of region indices,
//! kept inline up to `MAX_REGIONS` items.  Verus cannot declare `SmallVec`
//! itself (its `Array` bound is an outside trait), so the vector sits in the
//! private field of `RegionList`, and these are the trusted descriptions of
//! the few `SmallVec` operations the library uses.
use vstd::prelude::*;
use smallvec::SmallVec;

verus! {

/// An ordered list of region indices.
#[verifier::external_body]
pub struct RegionList {
    items: SmallVec<[u8; 32]>,
}

/// Items of a region list, in order.
pub uninterp spec fn region_list_items(v: RegionList) -> Seq<u8>;

impl RegionList {
    /// `SmallVec::new`: the list starts empty.
    #[verifier::external_body]
    pub fn new() -> (r: RegionList)
        ensures
            region_list_items(r) == Seq::<u8>::empty(),
    {
        RegionList { items: SmallVec::new() }
    }

    /// `SmallVec::push`: appends `item` at the end.  The crate panics only
    /// when the length would pass half the address space, which `requires`
    /// excludes.
    #[verifier::external_body]
    pub fn push(&mut self, item: u8)
        requires
            region_list_items(*old(self)).len() < 0x4000_0000,
        ensures
            region_list_items(*final(self)) == region_list_items(*old(self)).push(item),
    {
        self.items.push(item)
    }

    /// `SmallVec::len`: the number of items.
    #[verifier::external_body]
    pub fn len(&self) -> (r: usize)
        ensures
            r == region_list_items(*self).len(),
    {
        self.items.len()
    }

    /// `SmallVec::clone`: a list with the same items.
    #[verifier::external_body]
    pub fn duplicate(&self) -> (r: RegionList)
        ensures
            region_list_items(r) == region_list_items(*self),
    {
        RegionList { items: self.items.clone() }
    }

    /// Indexing a `SmallVec`: the item at position `i`.
    #[verifier::external_body]
    pub fn get(&self, i: usize) -> (r: u8)
        requires
            i < region_list_items(*self).len(),
        ensures
            r == region_list_items(*self)[i as int],
    {
        self.items[i]
    }
}

} // verus!
