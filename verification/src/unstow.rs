use vstd::prelude::*;

use crate::error::Error;
use crate::error::ErrorView;
use crate::paths::append_from;
use crate::paths::clone_path;
use crate::paths::is_normal_path;
use crate::paths::link_value_view;
use crate::paths::path_eq;
use crate::paths::push_path;
use crate::paths::rel_prefix;
use crate::paths::SourceTargetDiff;
use crate::tree::ctx_of;
use crate::tree::Pair;
use crate::tree::SourceInfo;
use crate::tree::TargetInfo;
use crate::tree::WalkCtx;

verus! {

/// The mathematical shape of an unstow plan: the target paths confirmed
/// safe to remove, in traversal order.
pub type UnstowList = Seq<Seq<Seq<char>>>;

// Unstow classification, depth first.  For the pair of one source entry and
// its mirrored target path (`ctx.troot + suffix`):
//  - target neither symlink nor directory: a path that does not exist is
//    silently skipped, but an ordinary file is never touched, so fail;
//  - plain directory: descend (demands the target writable and the source
//    listable);
//  - symlink to a non-directory: removable exactly when its value is what
//    stowing this source entry would have written; a foreign or stale
//    symlink is left untouched, without error;
//  - symlink resolving to a directory: canonically the source itself means
//    the package was stowed as one directory symlink, removable as a whole;
//    otherwise descend into it like a plain directory.

/// What unstowing one (source, target) pair appends to the removable set `u`.
pub open spec fn unstow_pair(
    u: UnstowList,
    p: Pair,
    ctx: WalkCtx,
    suffix: Seq<Seq<char>>,
) -> Result<UnstowList, ErrorView>
    decreases p,
{
    match p.target {
        TargetInfo::Missing => Ok(u),
        TargetInfo::File => Err(ErrorView::NotSymlinkOrDir { target: ctx.troot + suffix }),
        TargetInfo::Symlink(v) => if v.deep_view() == link_value_view(ctx.d, suffix) {
            Ok(u.push(ctx.troot + suffix))
        } else {
            Ok(u)
        },
        TargetInfo::Dir { writable, same_as_source: _ } => unstow_descend(
            u,
            p.source,
            writable,
            ctx,
            suffix,
        ),
        TargetInfo::SymlinkDir { writable, same_as_source } => if same_as_source {
            Ok(u.push(ctx.troot + suffix))
        } else {
            unstow_descend(u, p.source, writable, ctx, suffix)
        },
    }
}

/// What descending into one directory pair appends to `u`: nothing of the
/// directory is visited unless its target is writable and its source listing
/// is at hand.
pub open spec fn unstow_descend(
    u: UnstowList,
    src: SourceInfo,
    target_writable: bool,
    ctx: WalkCtx,
    suffix: Seq<Seq<char>>,
) -> Result<UnstowList, ErrorView>
    decreases src,
{
    if !target_writable {
        Err(ErrorView::PermissionDenied { target: ctx.troot + suffix })
    } else {
        match src {
            SourceInfo::NotDir => Err(ErrorView::SourceUnreadable { source: ctx.sroot + suffix }),
            SourceInfo::Dir(children) => unstow_pairs(u, children@, ctx, suffix),
        }
    }
}

/// What unstowing the pairs of a directory's entries, in order, appends to
/// `u`; the first failing entry fails the whole traversal.
pub open spec fn unstow_pairs(
    u: UnstowList,
    cs: Seq<Pair>,
    ctx: WalkCtx,
    suffix: Seq<Seq<char>>,
) -> Result<UnstowList, ErrorView>
    decreases cs,
{
    if cs.len() == 0 {
        Ok(u)
    } else {
        match unstow_pair(u, cs[0], ctx, suffix.push(cs[0].name@)) {
            Ok(u2) => unstow_pairs(u2, cs.drop_first(), ctx, suffix),
            Err(e) => Err(e),
        }
    }
}

/// Runs [`unstow_pair`] on one child pair, appending into `out`.
fn unstow_pair_x(
    p: &Pair,
    diff: &SourceTargetDiff,
    target_root: &Vec<String>,
    spath: &Vec<String>,
    out: &mut Vec<Vec<String>>,
    Ghost(suffix): Ghost<Seq<Seq<char>>>,
) -> (r: Result<(), Error>)
    requires
        spath.deep_view() == diff.source_root.deep_view() + suffix,
        suffix.len() >= 1,
    ensures
        match r {
            Ok(()) => unstow_pair(old(out).deep_view(), *p, ctx_of(*diff, *target_root), suffix)
                == Ok::<UnstowList, ErrorView>(final(out).deep_view()),
            Err(e) => unstow_pair(old(out).deep_view(), *p, ctx_of(*diff, *target_root), suffix)
                == Err::<UnstowList, ErrorView>(e@),
        },
    decreases *p,
{
    let rootlen = diff.source_root.len();
    proof {
        assert(spath.deep_view().skip(rootlen as int) =~= suffix);
        assert(diff.source_root.deep_view().is_prefix_of(spath.deep_view()));
    }
    match &p.target {
        TargetInfo::Missing => Ok(()),
        TargetInfo::File => {
            let target = append_from(target_root, spath, rootlen);
            Err(Error::NotSymlinkOrDir { target })
        },
        TargetInfo::Symlink(v) => {
            let value = diff.conv_source_rel(spath);
            if path_eq(v, &value) {
                let target = append_from(target_root, spath, rootlen);
                push_path(out, target);
                Ok(())
            } else {
                Ok(())
            }
        },
        TargetInfo::Dir { writable, same_as_source: _ } => {
            unstow_descend_x(&p.source, *writable, diff, target_root, spath, out, Ghost(suffix))
        },
        TargetInfo::SymlinkDir { writable, same_as_source } => {
            if *same_as_source {
                let target = append_from(target_root, spath, rootlen);
                push_path(out, target);
                Ok(())
            } else {
                unstow_descend_x(&p.source, *writable, diff, target_root, spath, out, Ghost(suffix))
            }
        },
    }
}

/// Runs [`unstow_descend`] on one directory pair, appending into `out`.
fn unstow_descend_x(
    src: &SourceInfo,
    target_writable: bool,
    diff: &SourceTargetDiff,
    target_root: &Vec<String>,
    spath: &Vec<String>,
    out: &mut Vec<Vec<String>>,
    Ghost(suffix): Ghost<Seq<Seq<char>>>,
) -> (r: Result<(), Error>)
    requires
        spath.deep_view() == diff.source_root.deep_view() + suffix,
    ensures
        match r {
            Ok(()) => unstow_descend(
                old(out).deep_view(),
                *src,
                target_writable,
                ctx_of(*diff, *target_root),
                suffix,
            ) == Ok::<UnstowList, ErrorView>(final(out).deep_view()),
            Err(e) => unstow_descend(
                old(out).deep_view(),
                *src,
                target_writable,
                ctx_of(*diff, *target_root),
                suffix,
            ) == Err::<UnstowList, ErrorView>(e@),
        },
    decreases *src,
{
    let rootlen = diff.source_root.len();
    proof {
        assert(spath.deep_view().len() == spath@.len());
        assert(diff.source_root.deep_view().len() == diff.source_root@.len());
        assert(spath.deep_view().skip(rootlen as int) =~= suffix);
    }
    if !target_writable {
        let target = append_from(target_root, spath, rootlen);
        return Err(Error::PermissionDenied { target });
    }
    match src {
        SourceInfo::NotDir => {
            let source = clone_path(spath);
            Err(Error::SourceUnreadable { source })
        },
        SourceInfo::Dir(children) => {
            let ghost ctx = ctx_of(*diff, *target_root);
            let mut i: usize = 0;
            let ghost u0 = out.deep_view();
            proof {
                assert(children@.skip(0) =~= children@);
            }
            while i < children.len()
                invariant
                    i <= children@.len(),
                    u0 == old(out).deep_view(),
                    target_writable,
                    *src == SourceInfo::Dir(*children),
                    ctx == ctx_of(*diff, *target_root),
                    spath.deep_view() == diff.source_root.deep_view() + suffix,
                    unstow_pairs(u0, children@, ctx, suffix) == unstow_pairs(
                        out.deep_view(),
                        children@.skip(i as int),
                        ctx,
                        suffix,
                    ),
                decreases children@.len() - i,
            {
                let child = &children[i];
                let child_spath = crate::paths::join_seg(spath, &child.name);
                let ghost out_before = out.deep_view();
                let ghost rest = children@.skip(i as int);
                proof {
                    assert(rest[0] == children@[i as int]);
                    assert(rest.drop_first() =~= children@.skip(i + 1));
                    assert((diff.source_root.deep_view() + suffix).push(child.name@)
                        =~= diff.source_root.deep_view() + suffix.push(child.name@));
                    assert(decreases_to!(*src => src->Dir_0));
                    assert(decreases_to!(src->Dir_0 => children@));
                    assert(decreases_to!(children@ => children@[i as int]));
                    assert(decreases_to!(*src => children@[i as int]));
                }
                let r = unstow_pair_x(
                    child,
                    diff,
                    target_root,
                    &child_spath,
                    out,
                    Ghost(suffix.push(child.name@)),
                );
                match r {
                    Ok(()) => {
                        i += 1;
                    },
                    Err(e) => {
                        return Err(e);
                    },
                }
            }
            proof {
                assert(children@.skip(children@.len() as int) =~= Seq::<Pair>::empty());
            }
            Ok(())
        },
    }
}

/// Computes this package's unstow list from a snapshot of its source tree
/// and of the mirrored target paths: exactly the targets confirmed to hold
/// the symlink that stowing this package would have produced (or to be the
/// package stowed as one directory symlink), and an error the moment the
/// traversal meets an ordinary file where it probes, an unwritable target
/// directory, or an unlistable source directory.  Targets that do not exist,
/// and foreign or stale symlinks, are silently skipped.
pub fn new_unstow_list(
    source: &SourceInfo,
    target_writable: bool,
    source_root: &Vec<String>,
    target_root: &Vec<String>,
    canon_source_root: &Vec<String>,
    canon_target_root: &Vec<String>,
) -> (r: Result<Vec<Vec<String>>, Error>)
    requires
        is_normal_path(canon_source_root.deep_view()),
        is_normal_path(canon_target_root.deep_view()),
    ensures
        match r {
            Ok(list) => unstow_descend(
                Seq::empty(),
                *source,
                target_writable,
                WalkCtx {
                    sroot: source_root.deep_view(),
                    troot: target_root.deep_view(),
                    d: rel_prefix(canon_source_root.deep_view(), canon_target_root.deep_view()),
                },
                Seq::empty(),
            ) == Ok::<UnstowList, ErrorView>(list.deep_view()),
            Err(e) => unstow_descend(
                Seq::empty(),
                *source,
                target_writable,
                WalkCtx {
                    sroot: source_root.deep_view(),
                    troot: target_root.deep_view(),
                    d: rel_prefix(canon_source_root.deep_view(), canon_target_root.deep_view()),
                },
                Seq::empty(),
            ) == Err::<UnstowList, ErrorView>(e@),
        },
{
    let diff = match SourceTargetDiff::new(
        clone_path(source_root),
        canon_source_root,
        canon_target_root,
    ) {
        Ok(diff) => diff,
        Err(e) => {
            return Err(e);
        },
    };
    let ghost ctx = ctx_of(diff, *target_root);
    proof {
        assert(ctx.sroot =~= source_root.deep_view());
        assert(source_root.deep_view() + Seq::<Seq<char>>::empty() =~= diff.source_root.deep_view());
    }
    let mut out: Vec<Vec<String>> = Vec::new();
    proof {
        assert(out.deep_view() =~= Seq::<Seq<Seq<char>>>::empty());
    }
    match unstow_descend_x(
        source,
        target_writable,
        &diff,
        target_root,
        source_root,
        &mut out,
        Ghost(Seq::empty()),
    ) {
        Ok(()) => Ok(out),
        Err(e) => Err(e),
    }
}

} // verus!
