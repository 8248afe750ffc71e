//! A sparse set of 512-byte sectors, keyed by block address.
use crate::bytes::copy_range;
use std::collections::BTreeMap;
use vstd::prelude::*;

verus! {

broadcast use {
    vstd::std_specs::btree::group_btree_axioms,
    vstd::laws_cmp::group_laws_cmp,
    vstd::laws_eq::group_laws_eq,
};

/// Bytes of one sector.
pub const SECTOR_SIZE: usize = 512;

/// The sectors held, by block address.
pub struct SectorMap {
    map: BTreeMap<u32, Vec<u8>>,
}

impl SectorMap {
    /// The bytes of each sector held.
    pub closed spec fn view(&self) -> Map<u32, Seq<u8>> {
        Map::new(|l: u32| self.map@.contains_key(l), |l: u32| self.map@[l]@)
    }

    /// Every sector has its 512 bytes.
    pub open spec fn wf(&self) -> bool {
        forall|l: u32| #[trigger] self@.contains_key(l) ==> self@[l].len() == 512
    }

    /// Nothing held.
    pub fn new() -> (r: SectorMap)
        ensures
            r.wf(),
            r@ == Map::<u32, Seq<u8>>::empty(),
    {
        let r = SectorMap { map: BTreeMap::new() };
        assert(r@ =~= Map::<u32, Seq<u8>>::empty());
        r
    }

    /// Is the sector held?
    pub fn has(&self, lba: u32) -> (r: bool)
        ensures
            r == self@.contains_key(lba),
    {
        self.map.contains_key(&lba)
    }

    /// A copy of the sector's bytes.
    pub fn get(&self, lba: u32) -> (r: Option<Vec<u8>>)
        ensures
            match r {
                Some(d) => self@.contains_key(lba) && d@ == self@[lba],
                None => !self@.contains_key(lba),
            },
    {
        match self.map.get(&lba) {
            None => None,
            Some(d) => {
                let c = copy_range(d.as_slice(), 0, d.len());
                assert(c@ =~= d@);
                Some(c)
            },
        }
    }

    /// Hold `data` as the sector's bytes.
    pub fn put(&mut self, lba: u32, data: Vec<u8>)
        requires
            old(self).wf(),
            data@.len() == 512,
        ensures
            final(self).wf(),
            final(self)@ == old(self)@.insert(lba, data@),
    {
        self.map.insert(lba, data);
        assert(self@ =~= old(self)@.insert(lba, data@));
    }
}

} // verus!
