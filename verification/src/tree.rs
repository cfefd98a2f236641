use vstd::prelude::*;

use crate::paths::is_normal_seg;
use crate::paths::SourceTargetDiff;

verus! {

/// What stays fixed over one package's traversal: the package root and
/// target root as given, and the relative path from the canonical target
/// root to the canonical package root.
pub struct WalkCtx {
    pub sroot: Seq<Seq<char>>,
    pub troot: Seq<Seq<char>>,
    pub d: Seq<Seq<char>>,
}

/// The traversal context carried by a resolver and a target root.
pub open spec fn ctx_of(diff: SourceTargetDiff, target_root: Vec<String>) -> WalkCtx {
    WalkCtx {
        sroot: diff.source_root.deep_view(),
        troot: target_root.deep_view(),
        d: diff.d.deep_view(),
    }
}

/// What the filesystem shows at one mirrored target path, as probed by the
/// caller when the snapshot is taken.
pub enum TargetInfo {
    /// Nothing exists at the target path.
    Missing,
    /// An ordinary file: neither a symlink nor a directory.
    File,
    /// A symlink that does not resolve to a directory, with its current value
    /// in components.
    Symlink(Vec<String>),
    /// A real directory: whether it is writable, and whether its canonical
    /// path equals the canonical path of the mirrored source entry.
    Dir { writable: bool, same_as_source: bool },
    /// A symlink that resolves to a directory.
    SymlinkDir { writable: bool, same_as_source: bool },
}

/// One source entry, visited in lock step with the state of its mirrored
/// target path.
pub struct Pair {
    /// The entry's name under its parent directory.
    pub name: String,
    /// The source side of the pair.
    pub source: SourceInfo,
    /// The target side of the pair.
    pub target: TargetInfo,
}

/// A source entry is either a directory whose children could be listed, or
/// not such a directory (an ordinary file, or a directory whose listing
/// fails and which a traversal therefore cannot descend into).
pub enum SourceInfo {
    NotDir,
    Dir(Vec<Pair>),
}

/// A well-formed directory listing: names are normal components, no name
/// repeats, and every subtree is well formed in turn.
pub open spec fn wf_pairs(pairs: Seq<Pair>) -> bool
    decreases pairs,
{
    &&& forall|i: int| #![trigger pairs[i]] 0 <= i < pairs.len() ==> wf_pair(pairs[i])
    &&& forall|i: int, j: int|
        #![auto]
        0 <= i < j < pairs.len() ==> pairs[i].name@ != pairs[j].name@
}

pub open spec fn wf_pair(p: Pair) -> bool
    decreases p,
{
    &&& is_normal_seg(p.name@)
    &&& wf_source(p.source)
}

pub open spec fn wf_source(s: SourceInfo) -> bool
    decreases s,
{
    match s {
        SourceInfo::NotDir => true,
        SourceInfo::Dir(children) => wf_pairs(children@),
    }
}

} // verus!
