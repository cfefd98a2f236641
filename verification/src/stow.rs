use vstd::prelude::*;

use crate::error::Error;
use crate::error::ErrorView;
use crate::paths::append_from;
use crate::paths::clone_path;
use crate::paths::is_normal_path;
use crate::paths::link_value_view;
use crate::paths::path_eq;
use crate::paths::rel_prefix;
use crate::paths::SourceTargetDiff;
use crate::plan::record_result;
use crate::plan::PlanMap;
use crate::plan::StowPlan;
use crate::tree::ctx_of;
use crate::tree::Pair;
use crate::tree::SourceInfo;
use crate::tree::TargetInfo;
use crate::tree::WalkCtx;

verus! {

// Stow classification, depth first.  For the pair of one source entry and
// its mirrored target path (`ctx.troot + suffix`):
//  - target missing: record a link there, whose value points back at the
//    source entry (insert-or-conflict against what was recorded earlier);
//  - target exists but is no directory: already holding exactly the wanted
//    link value is a no-op, anything else would be overwritten, so fail;
//  - target is a directory (or a symlink resolving to one): a target that is
//    canonically the source itself is a self-referential loop, a no-op;
//    otherwise descend, which first demands the target directory writable
//    and the source listable.

/// What stowing one (source, target) pair adds to the plan `m`.
pub open spec fn stow_pair(
    m: PlanMap,
    p: Pair,
    ctx: WalkCtx,
    suffix: Seq<Seq<char>>,
) -> Result<PlanMap, ErrorView>
    decreases p,
{
    match p.target {
        TargetInfo::Missing => record_result(m, ctx.troot + suffix, link_value_view(ctx.d, suffix)),
        TargetInfo::File => Err(ErrorView::TargetExists { target: ctx.troot + suffix }),
        TargetInfo::Symlink(v) => if v.deep_view() == link_value_view(ctx.d, suffix) {
            Ok(m)
        } else {
            Err(ErrorView::TargetExists { target: ctx.troot + suffix })
        },
        TargetInfo::Dir { writable, same_as_source } => if same_as_source {
            Ok(m)
        } else {
            stow_descend(m, p.source, writable, ctx, suffix)
        },
        TargetInfo::SymlinkDir { writable, same_as_source } => if same_as_source {
            Ok(m)
        } else {
            stow_descend(m, p.source, writable, ctx, suffix)
        },
    }
}

/// What descending into one directory pair adds to the plan `m`: nothing of
/// the directory is visited unless its target is writable and its source
/// listing is at hand.
pub open spec fn stow_descend(
    m: PlanMap,
    src: SourceInfo,
    target_writable: bool,
    ctx: WalkCtx,
    suffix: Seq<Seq<char>>,
) -> Result<PlanMap, ErrorView>
    decreases src,
{
    if !target_writable {
        Err(ErrorView::PermissionDenied { target: ctx.troot + suffix })
    } else {
        match src {
            SourceInfo::NotDir => Err(ErrorView::SourceUnreadable { source: ctx.sroot + suffix }),
            SourceInfo::Dir(children) => stow_pairs(m, children@, ctx, suffix),
        }
    }
}

/// What stowing the pairs of a directory's entries, in order, adds to `m`;
/// the first failing entry fails the whole traversal.
pub open spec fn stow_pairs(
    m: PlanMap,
    cs: Seq<Pair>,
    ctx: WalkCtx,
    suffix: Seq<Seq<char>>,
) -> Result<PlanMap, ErrorView>
    decreases cs,
{
    if cs.len() == 0 {
        Ok(m)
    } else {
        match stow_pair(m, cs[0], ctx, suffix.push(cs[0].name@)) {
            Ok(m2) => stow_pairs(m2, cs.drop_first(), ctx, suffix),
            Err(e) => Err(e),
        }
    }
}

/// Runs [`stow_pair`] on one child pair, recording into `plan`.
fn stow_pair_x(
    p: &Pair,
    diff: &SourceTargetDiff,
    target_root: &Vec<String>,
    spath: &Vec<String>,
    plan: &mut StowPlan,
    Ghost(suffix): Ghost<Seq<Seq<char>>>,
) -> (r: Result<(), Error>)
    requires
        old(plan).wf(),
        spath.deep_view() == diff.source_root.deep_view() + suffix,
        suffix.len() >= 1,
    ensures
        final(plan).wf(),
        match r {
            Ok(()) => stow_pair(old(plan)@, *p, ctx_of(*diff, *target_root), suffix)
                == Ok::<PlanMap, ErrorView>(final(plan)@),
            Err(e) => stow_pair(old(plan)@, *p, ctx_of(*diff, *target_root), suffix)
                == Err::<PlanMap, ErrorView>(e@),
        },
    decreases *p,
{
    let rootlen = diff.source_root.len();
    proof {
        assert(spath.deep_view().skip(rootlen as int) =~= suffix);
        assert(diff.source_root.deep_view().is_prefix_of(spath.deep_view()));
    }
    match &p.target {
        TargetInfo::Missing => {
            let value = diff.conv_source_rel(spath);
            let target = append_from(target_root, spath, rootlen);
            match plan.record(target, value) {
                Ok(()) => Ok(()),
                Err(e) => Err(e),
            }
        },
        TargetInfo::File => {
            let target = append_from(target_root, spath, rootlen);
            Err(Error::TargetExists { target })
        },
        TargetInfo::Symlink(v) => {
            let value = diff.conv_source_rel(spath);
            if path_eq(v, &value) {
                Ok(())
            } else {
                let target = append_from(target_root, spath, rootlen);
                Err(Error::TargetExists { target })
            }
        },
        TargetInfo::Dir { writable, same_as_source } => {
            if *same_as_source {
                Ok(())
            } else {
                stow_descend_x(&p.source, *writable, diff, target_root, spath, plan, Ghost(suffix))
            }
        },
        TargetInfo::SymlinkDir { writable, same_as_source } => {
            if *same_as_source {
                Ok(())
            } else {
                stow_descend_x(&p.source, *writable, diff, target_root, spath, plan, Ghost(suffix))
            }
        },
    }
}

/// Runs [`stow_descend`] on one directory pair, recording into `plan`.
fn stow_descend_x(
    src: &SourceInfo,
    target_writable: bool,
    diff: &SourceTargetDiff,
    target_root: &Vec<String>,
    spath: &Vec<String>,
    plan: &mut StowPlan,
    Ghost(suffix): Ghost<Seq<Seq<char>>>,
) -> (r: Result<(), Error>)
    requires
        old(plan).wf(),
        spath.deep_view() == diff.source_root.deep_view() + suffix,
    ensures
        final(plan).wf(),
        match r {
            Ok(()) => stow_descend(
                old(plan)@,
                *src,
                target_writable,
                ctx_of(*diff, *target_root),
                suffix,
            ) == Ok::<PlanMap, ErrorView>(final(plan)@),
            Err(e) => stow_descend(
                old(plan)@,
                *src,
                target_writable,
                ctx_of(*diff, *target_root),
                suffix,
            ) == Err::<PlanMap, ErrorView>(e@),
        },
    decreases *src,
{
    let rootlen = diff.source_root.len();
    proof {
        assert(spath.deep_view().len() == spath@.len());
        assert(diff.source_root.deep_view().len() == diff.source_root@.len());
        assert(spath.deep_view().skip(rootlen as int) =~= suffix);
    }
    if !target_writable {
        let target = append_from(target_root, spath, rootlen);
        return Err(Error::PermissionDenied { target });
    }
    match src {
        SourceInfo::NotDir => {
            let source = clone_path(spath);
            Err(Error::SourceUnreadable { source })
        },
        SourceInfo::Dir(children) => {
            let ghost ctx = ctx_of(*diff, *target_root);
            let mut i: usize = 0;
            let ghost m0 = plan@;
            proof {
                assert(children@.skip(0) =~= children@);
                assert(*src == SourceInfo::Dir(*children));
                assert(src->Dir_0 == *children);
            }
            while i < children.len()
                invariant
                    plan.wf(),
                    i <= children@.len(),
                    m0 == old(plan)@,
                    target_writable,
                    *src == SourceInfo::Dir(*children),
                    ctx == ctx_of(*diff, *target_root),
                    spath.deep_view() == diff.source_root.deep_view() + suffix,
                    stow_pairs(m0, children@, ctx, suffix) == stow_pairs(
                        plan@,
                        children@.skip(i as int),
                        ctx,
                        suffix,
                    ),
                decreases children@.len() - i,
            {
                let child = &children[i];
                let child_spath = crate::paths::join_seg(spath, &child.name);
                let ghost plan_before = plan@;
                let ghost rest = children@.skip(i as int);
                proof {
                    assert(rest[0] == children@[i as int]);
                    assert(rest.drop_first() =~= children@.skip(i + 1));
                    assert((diff.source_root.deep_view() + suffix).push(child.name@)
                        =~= diff.source_root.deep_view() + suffix.push(child.name@));
                    assert(decreases_to!(*src => src->Dir_0));
                    assert(decreases_to!(src->Dir_0 => children@));
                    assert(decreases_to!(children@ => children@[i as int]));
                    assert(decreases_to!(*src => children@[i as int]));
                }
                let r = stow_pair_x(
                    child,
                    diff,
                    target_root,
                    &child_spath,
                    plan,
                    Ghost(suffix.push(child.name@)),
                );
                match r {
                    Ok(()) => {
                        i += 1;
                    },
                    Err(e) => {
                        return Err(e);
                    },
                }
            }
            proof {
                assert(children@.skip(children@.len() as int) =~= Seq::<Pair>::empty());
            }
            Ok(())
        },
    }
}

/// Computes this package's stow plan from a snapshot of its source tree and
/// of the mirrored target paths: one (target, link value) entry per source
/// entry whose mirrored target is missing, a no-op for entries already
/// correctly stowed, and an error the moment the traversal meets a foreign
/// file, an unwritable target directory, an unlistable source directory, or
/// a duplicate target.  `source` and `target_writable` describe the package
/// root and the writability of the target root; the canonical roots feed
/// the relative-path resolver.
pub fn new_stow_list(
    source: &SourceInfo,
    target_writable: bool,
    source_root: &Vec<String>,
    target_root: &Vec<String>,
    canon_source_root: &Vec<String>,
    canon_target_root: &Vec<String>,
) -> (r: Result<StowPlan, Error>)
    requires
        is_normal_path(canon_source_root.deep_view()),
        is_normal_path(canon_target_root.deep_view()),
    ensures
        match r {
            Ok(plan) => plan.wf() && stow_descend(
                Map::empty(),
                *source,
                target_writable,
                WalkCtx {
                    sroot: source_root.deep_view(),
                    troot: target_root.deep_view(),
                    d: rel_prefix(canon_source_root.deep_view(), canon_target_root.deep_view()),
                },
                Seq::empty(),
            ) == Ok::<PlanMap, ErrorView>(plan@),
            Err(e) => stow_descend(
                Map::empty(),
                *source,
                target_writable,
                WalkCtx {
                    sroot: source_root.deep_view(),
                    troot: target_root.deep_view(),
                    d: rel_prefix(canon_source_root.deep_view(), canon_target_root.deep_view()),
                },
                Seq::empty(),
            ) == Err::<PlanMap, ErrorView>(e@),
        },
{
    let diff = match SourceTargetDiff::new(
        clone_path(source_root),
        canon_source_root,
        canon_target_root,
    ) {
        Ok(diff) => diff,
        Err(e) => {
            return Err(e);
        },
    };
    let ghost ctx = ctx_of(diff, *target_root);
    proof {
        assert(ctx.sroot =~= source_root.deep_view());
        assert(source_root.deep_view() + Seq::<Seq<char>>::empty() =~= diff.source_root.deep_view());
    }
    let mut plan = StowPlan::new();
    match stow_descend_x(
        source,
        target_writable,
        &diff,
        target_root,
        source_root,
        &mut plan,
        Ghost(Seq::empty()),
    ) {
        Ok(()) => Ok(plan),
        Err(e) => Err(e),
    }
}

} // verus!
