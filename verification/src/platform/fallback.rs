//! Platforms of which nothing is known.

use vstd::prelude::*;

use crate::path::{NodePath, PathSet};
use crate::platform;
use crate::platform::VolumeInfo;

verus! {

/// The bytes of a file system and the available ones are not known.
pub fn disk_space(path: &NodePath) -> (space: Option<(u64, u64)>)
    ensures
        space is None,
{
    None
}

/// No volumes are known.
pub fn list_volumes() -> (volumes: Vec<VolumeInfo>)
    ensures
        platform::volume_views(volumes@) == Seq::<platform::Volume>::empty(),
{
    let volumes: Vec<VolumeInfo> = Vec::new();
    assert(platform::volume_views(volumes@) =~= Seq::<platform::Volume>::empty());
    volumes
}

/// A scan leaves nothing out.
pub fn build_skip_set(root: &NodePath) -> (skip: PathSet)
    ensures
        skip@ == Set::<Seq<Seq<char>>>::empty(),
{
    PathSet::new()
}

} // verus!
