use vstd::prelude::*;

verus! {

/// A region or continent: its node count and the tags that name it.
pub struct RegionInfo {
    pub size: usize,
    pub name_tags: Vec<u32>,
}

/// The named regions and continents, and the continent of each region.
pub struct Meta {
    pub regions: Vec<RegionInfo>,
    pub continents: Vec<RegionInfo>,
    pub continent_of_region: Vec<u32>,
}

} // verus!
