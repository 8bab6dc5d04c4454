//! Mounted volumes, and the directories that a scan leaves out.

use vstd::prelude::*;

use crate::path::{NodePath, PathSet, Place};

pub mod fallback;
pub mod linux;
pub mod macos;
pub mod windows;

verus! {

/// Information about a mounted volume.
pub struct VolumeInfo {
    pub name: String,
    pub path: NodePath,
    pub total_bytes: u64,
    pub available_bytes: u64,
}

/// A volume as a mathematical value.
pub struct Volume {
    pub name: Seq<char>,
    pub path: Place,
    pub total_bytes: u64,
    pub available_bytes: u64,
}

impl View for VolumeInfo {
    type V = Volume;

    open spec fn view(&self) -> Volume {
        Volume {
            name: self.name@,
            path: self.path.place(),
            total_bytes: self.total_bytes,
            available_bytes: self.available_bytes,
        }
    }
}

/// Volumes as mathematical values.
pub open spec fn volume_views(volumes: Seq<VolumeInfo>) -> Seq<Volume> {
    volumes.map_values(|volume: VolumeInfo| volume@)
}

/// Whether one of the volumes is mounted at `path`.
pub open spec fn mounted(volumes: Seq<Volume>, path: Seq<Seq<char>>) -> bool {
    exists|i: int| 0 <= i < volumes.len() && (#[trigger] volumes[i]).path.parts == path
}

/// Whether one of the volumes is mounted at `path`.
pub fn is_mounted(volumes: &Vec<VolumeInfo>, path: &NodePath) -> (yes: bool)
    ensures
        yes == mounted(volume_views(volumes@), path@),
{
    let ghost all = volume_views(volumes@);
    let mut i: usize = 0;
    while i < volumes.len()
        invariant
            i <= volumes@.len(),
            all == volume_views(volumes@),
            forall|k: int| 0 <= k < i ==> (#[trigger] all[k]).path.parts != path@,
        decreases volumes@.len() - i,
    {
        assert(all[i as int] == volumes@[i as int]@);
        if volumes[i].path.same(path) {
            assert(all[i as int].path.parts == path@);
            return true;
        }
        i += 1;
    }
    false
}

/// Adds to `skip` the path that each of the texts spells.
pub(crate) fn skip_texts(skip: &mut PathSet, texts: &[&'static str])
    ensures
        final(skip)@ == old(skip)@.union(spelled_paths(texts@)),
{
    let mut i: usize = 0;
    let ghost before = skip@;
    assert(before =~= before.union(spelled_paths(texts@.take(0))));
    while i < texts.len()
        invariant
            i <= texts@.len(),
            skip@ == before.union(spelled_paths(texts@.take(i as int))),
        decreases texts@.len() - i,
    {
        let path = NodePath::new(texts[i]);
        skip.insert(&path);
        i += 1;
        proof {
            let upto = texts@.take(i as int);
            let less = texts@.take(i - 1);
            assert forall|p: Seq<Seq<char>>|
                spelled_paths(upto).contains(p) == (spelled_paths(less).contains(p) || p
                    == path@) by {
                if spelled_paths(less).contains(p) {
                    let k = choose|k: int|
                        0 <= k < less.len() && p == crate::path::parse_parts(#[trigger] less[k]@);
                    assert(upto[k] == less[k]);
                }
                if p == path@ {
                    assert(upto[i - 1]@ == texts@[i - 1]@);
                }
                if spelled_paths(upto).contains(p) && p != path@ {
                    let k = choose|k: int|
                        0 <= k < upto.len() && p == crate::path::parse_parts(#[trigger] upto[k]@);
                    assert(less[k] == upto[k]);
                }
            }
            assert(skip@ =~= before.union(spelled_paths(upto)));
        }
    }
    assert(texts@.take(i as int) =~= texts@);
}

/// The paths that texts spell.
pub open spec fn spelled_paths(texts: Seq<&'static str>) -> Set<Seq<Seq<char>>> {
    Set::new(
        |p: Seq<Seq<char>>|
            exists|i: int|
                0 <= i < texts.len() && p == crate::path::parse_parts(#[trigger] texts[i]@),
    )
}

} // verus!
