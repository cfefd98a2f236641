use vstd::prelude::*;

use crate::error::ErrorView;
use crate::paths::common_len;
use crate::paths::dotdot;
use crate::paths::dots;
use crate::paths::is_normal_path;
use crate::paths::is_normal_seg;
use crate::paths::lemma_common_len_le;
use crate::paths::link_value_view;
use crate::paths::rel_prefix;
use crate::plan::PlanMap;
use crate::stow::stow_pair;
use crate::stow::stow_pairs;
use crate::unstow::unstow_pair;
use crate::unstow::unstow_pairs;
use crate::unstow::UnstowList;
use crate::tree::wf_pair;
use crate::tree::wf_pairs;
use crate::tree::Pair;
use crate::tree::SourceInfo;
use crate::tree::TargetInfo;
use crate::tree::WalkCtx;

verus! {

// ---------------------------------------------------------------------------
// Resolving a relative link value, as a symlink resolver would: `..` pops the
// last component of the base directory, a plain component is appended.

pub open spec fn resolve_rel(base: Seq<Seq<char>>, rel: Seq<Seq<char>>) -> Seq<Seq<char>>
    decreases rel.len(),
{
    if rel.len() == 0 {
        base
    } else if rel[0] == dotdot() {
        resolve_rel(
            if base.len() > 0 {
                base.drop_last()
            } else {
                base
            },
            rel.drop_first(),
        )
    } else {
        resolve_rel(base.push(rel[0]), rel.drop_first())
    }
}

/// A run of `..`, one per component of `extra`, takes `base + extra` back to
/// `base`.
proof fn lemma_resolve_dots(base: Seq<Seq<char>>, extra: Seq<Seq<char>>, rest: Seq<Seq<char>>)
    ensures
        resolve_rel(base + extra, dots(extra.len()) + rest) == resolve_rel(base, rest),
    decreases extra.len(),
{
    if extra.len() == 0 {
        assert(base + extra =~= base);
        assert(dots(0) + rest =~= rest);
    } else {
        let whole = dots(extra.len()) + rest;
        assert(whole[0] == dotdot());
        assert((base + extra).len() > 0);
        assert((base + extra).drop_last() =~= base + extra.drop_last());
        assert(whole.drop_first() =~= dots((extra.len() - 1) as nat) + rest);
        lemma_resolve_dots(base, extra.drop_last(), rest);
        assert(extra.drop_last().len() == extra.len() - 1);
    }
}

/// Normal components never pop: resolving them just appends them.
proof fn lemma_resolve_normal(base: Seq<Seq<char>>, rel: Seq<Seq<char>>)
    requires
        is_normal_path(rel),
    ensures
        resolve_rel(base, rel) == base + rel,
    decreases rel.len(),
{
    if rel.len() == 0 {
        assert(base + rel =~= base);
    } else {
        assert(is_normal_seg(rel[0]));
        assert(rel[0] != dotdot());
        assert(is_normal_path(rel.drop_first()));
        lemma_resolve_normal(base.push(rel[0]), rel.drop_first());
        assert(base.push(rel[0]) + rel.drop_first() =~= base + rel);
    }
}

/// The two roots agree on their whole common prefix.
proof fn lemma_common_prefix(a: Seq<Seq<char>>, b: Seq<Seq<char>>)
    ensures
        forall|i: int| 0 <= i < common_len(a, b) ==> a[i] == b[i],
    decreases a.len(),
{
    if !(a.len() == 0 || b.len() == 0 || a[0] != b[0]) {
        lemma_common_prefix(a.drop_first(), b.drop_first());
        lemma_common_len_le(a, b);
        assert forall|i: int| 0 <= i < common_len(a, b) implies a[i] == b[i] by {
            if i > 0 {
                assert(common_len(a, b) == 1 + common_len(a.drop_first(), b.drop_first()));
                assert(a.drop_first()[i - 1] == b.drop_first()[i - 1]);
                assert(a.drop_first()[i - 1] == a[i]);
                assert(b.drop_first()[i - 1] == b[i]);
            }
        }
    }
}

/// The relative-path arithmetic is right: the link value written for the
/// target entry at `sfx` below the target root, resolved from that entry's
/// own directory, lands exactly on the source entry — whatever the depth of
/// the entry and wherever the two canonical roots lie.
pub proof fn lemma_link_value_resolves(s: Seq<Seq<char>>, t: Seq<Seq<char>>, sfx: Seq<Seq<char>>)
    requires
        is_normal_path(s),
        is_normal_path(t),
        is_normal_path(sfx),
        sfx.len() >= 1,
    ensures
        resolve_rel(t + sfx.drop_last(), link_value_view(rel_prefix(s, t), sfx)) == s + sfx,
{
    let c = common_len(s, t) as int;
    lemma_common_len_le(s, t);
    let d = rel_prefix(s, t);
    let tail = s.skip(c) + sfx;
    assert(link_value_view(d, sfx) =~= dots(sfx.drop_last().len()) + (dots((t.len() - c) as nat)
        + tail));
    lemma_resolve_dots(t, sfx.drop_last(), dots((t.len() - c) as nat) + tail);
    assert(t =~= t.take(c) + t.skip(c));
    assert(t.skip(c).len() == t.len() - c);
    lemma_resolve_dots(t.take(c), t.skip(c), tail);
    assert(is_normal_path(tail)) by {
        assert forall|i: int| 0 <= i < tail.len() implies is_normal_seg(tail[i]) by {
            if i < s.skip(c).len() {
                assert(tail[i] == s[c + i]);
            } else {
                assert(tail[i] == sfx[i - s.skip(c).len()]);
            }
        }
    }
    lemma_resolve_normal(t.take(c), tail);
    lemma_common_prefix(s, t);
    assert(t.take(c) =~= s.take(c));
    assert(s.take(c) + (s.skip(c) + sfx) =~= s + sfx);
}

// ---------------------------------------------------------------------------
// The fresh layout: the mirrored directory skeleton exists in the target,
// writable and foreign to the package, and every other mirrored target is
// missing.

pub open spec fn fresh_pair(p: Pair) -> bool
    decreases p,
{
    match p.target {
        TargetInfo::Missing => true,
        TargetInfo::Dir { writable, same_as_source } => writable && !same_as_source && (
        p.source matches SourceInfo::Dir(_)) && fresh_pairs((p.source->Dir_0)@),
        _ => false,
    }
}

pub open spec fn fresh_pairs(cs: Seq<Pair>) -> bool
    decreases cs,
{
    forall|i: int| #![trigger cs[i]] 0 <= i < cs.len() ==> fresh_pair(cs[i])
}

/// The links a fresh stow creates below one pair at `suffix`: the pair
/// itself when its target is missing, its subtree's links when its target is
/// a directory.
pub open spec fn fresh_link_pair(p: Pair, ctx: WalkCtx, suffix: Seq<Seq<char>>) -> PlanMap
    decreases p,
{
    match p.target {
        TargetInfo::Missing => map![ctx.troot + suffix => link_value_view(ctx.d, suffix)],
        TargetInfo::Dir { .. } => if (p.source matches SourceInfo::Dir(_)) {
            fresh_links((p.source->Dir_0)@, ctx, suffix)
        } else {
            Map::empty()
        },
        _ => Map::empty(),
    }
}

/// The links a fresh stow creates for a directory's entries.
pub open spec fn fresh_links(cs: Seq<Pair>, ctx: WalkCtx, suffix: Seq<Seq<char>>) -> PlanMap
    decreases cs,
{
    if cs.len() == 0 {
        Map::empty()
    } else {
        fresh_link_pair(cs[0], ctx, suffix.push(cs[0].name@)).union_prefer_right(
            fresh_links(cs.drop_first(), ctx, suffix),
        )
    }
}

/// `base.push(n)` leads into `k` exactly when `k` starts with `base` and
/// continues with `n`.
proof fn lemma_prefix_push(base: Seq<Seq<char>>, n: Seq<char>, k: Seq<Seq<char>>)
    ensures
        base.push(n).is_prefix_of(k) <==> (k.len() > base.len() && k.take(base.len() as int)
            == base && k[base.len() as int] == n),
{
    let bn = base.push(n);
    if bn.is_prefix_of(k) {
        assert(k.take(bn.len() as int) =~= bn);
        assert(k.take(base.len() as int) =~= base) by {
            assert(forall|j: int|
                #![auto]
                0 <= j < base.len() ==> k.take(base.len() as int)[j] == k[j] && k.take(
                    bn.len() as int,
                )[j] == k[j]);
        }
        assert(k[base.len() as int] == k.take(bn.len() as int)[base.len() as int]);
    }
    if k.len() > base.len() && k.take(base.len() as int) == base && k[base.len() as int] == n {
        assert(k.take(bn.len() as int) =~= bn) by {
            assert(forall|j: int|
                #![auto]
                0 <= j < base.len() ==> k.take(bn.len() as int)[j] == k[j] && k.take(
                    base.len() as int,
                )[j] == k[j]);
        }
    }
}

/// The keys of `m` stay clear of every entry's own namespace below `base`.
pub open spec fn avoids(m: PlanMap, cs: Seq<Pair>, base: Seq<Seq<char>>) -> bool {
    forall|k: Seq<Seq<char>>, i: int|
        #![auto]
        m.contains_key(k) && 0 <= i < cs.len() ==> !base.push(cs[i].name@).is_prefix_of(k)
}

/// Stowing one fresh pair succeeds and adds exactly its fresh links.
proof fn lemma_stow_fresh_pair(m: PlanMap, p: Pair, ctx: WalkCtx, suffix: Seq<Seq<char>>)
    requires
        wf_pair(p),
        fresh_pair(p),
        is_normal_path(suffix),
        suffix.len() >= 1,
        forall|k: Seq<Seq<char>>| #![auto]
            m.contains_key(k) ==> !(ctx.troot + suffix).is_prefix_of(k),
    ensures
        stow_pair(m, p, ctx, suffix) == Ok::<PlanMap, ErrorView>(
            m.union_prefer_right(fresh_link_pair(p, ctx, suffix)),
        ),
    decreases p,
{
    let base = ctx.troot + suffix;
    match p.target {
        TargetInfo::Missing => {
            assert(base.is_prefix_of(base)) by {
                assert(base.take(base.len() as int) =~= base);
            }
            assert(!m.contains_key(base));
            assert(m.insert(base, link_value_view(ctx.d, suffix)) =~= m.union_prefer_right(
                map![base => link_value_view(ctx.d, suffix)],
            ));
        },
        TargetInfo::Dir { writable, same_as_source } => {
            let children = (p.source->Dir_0)@;
            assert(avoids(m, children, base)) by {
                assert forall|k: Seq<Seq<char>>, i: int|
                    #![auto]
                    m.contains_key(k) && 0 <= i < children.len() implies !base.push(
                    children[i].name@,
                ).is_prefix_of(k) by {
                    lemma_prefix_push(base, children[i].name@, k);
                    if base.push(children[i].name@).is_prefix_of(k) {
                        assert(base.is_prefix_of(k));
                    }
                }
            }
            lemma_stow_fresh_pairs(m, children, ctx, suffix);
        },
        _ => {
            assert(false);
        },
    }
}

/// Stowing the fresh pairs of one directory succeeds and adds exactly their
/// fresh links.
proof fn lemma_stow_fresh_pairs(m: PlanMap, cs: Seq<Pair>, ctx: WalkCtx, suffix: Seq<Seq<char>>)
    requires
        wf_pairs(cs),
        fresh_pairs(cs),
        is_normal_path(suffix),
        avoids(m, cs, ctx.troot + suffix),
    ensures
        stow_pairs(m, cs, ctx, suffix) == Ok::<PlanMap, ErrorView>(
            m.union_prefer_right(fresh_links(cs, ctx, suffix)),
        ),
    decreases cs,
{
    let base = ctx.troot + suffix;
    if cs.len() == 0 {
        assert(m.union_prefer_right(Map::empty()) =~= m);
    } else {
        let p0 = cs[0];
        let sfx0 = suffix.push(p0.name@);
        let child_base = ctx.troot + sfx0;
        assert(child_base =~= base.push(p0.name@));
        assert(is_normal_path(sfx0)) by {
            assert(forall|i: int| #![auto] 0 <= i < suffix.len() ==> sfx0[i] == suffix[i]);
            assert(sfx0[suffix.len() as int] == p0.name@);
            assert(wf_pair(p0));
        }
        assert forall|k: Seq<Seq<char>>| #![auto] m.contains_key(k) implies !child_base.is_prefix_of(
            k,
        ) by {
            assert(!base.push(cs[0].name@).is_prefix_of(k));
        }
        lemma_stow_fresh_pair(m, p0, ctx, sfx0);
        let l0 = fresh_link_pair(p0, ctx, sfx0);
        let m1 = m.union_prefer_right(l0);
        assert(wf_pairs(cs.drop_first()) && fresh_pairs(cs.drop_first())) by {
            assert(forall|i: int|
                #![auto]
                0 <= i < cs.drop_first().len() ==> cs.drop_first()[i] == cs[i + 1]);
        }
        assert(avoids(m1, cs.drop_first(), base)) by {
            assert forall|k: Seq<Seq<char>>, i: int|
                #![auto]
                m1.contains_key(k) && 0 <= i < cs.drop_first().len() implies !base.push(
                cs.drop_first()[i].name@,
            ).is_prefix_of(k) by {
                let nm = cs.drop_first()[i].name@;
                assert(nm == cs[i + 1].name@);
                lemma_prefix_push(base, nm, k);
                if m.contains_key(k) {
                    assert(!base.push(cs[i + 1].name@).is_prefix_of(k));
                } else {
                    assert(l0.contains_key(k));
                    lemma_fresh_link_pair_keys(p0, ctx, sfx0, k);
                    lemma_prefix_push(base, p0.name@, k);
                    assert(child_base.is_prefix_of(k));
                    assert(k[base.len() as int] == p0.name@);
                    assert(p0.name@ != nm);
                }
            }
        }
        lemma_stow_fresh_pairs(m1, cs.drop_first(), ctx, suffix);
        assert(m.union_prefer_right(
            l0.union_prefer_right(fresh_links(cs.drop_first(), ctx, suffix)),
        ) =~= m1.union_prefer_right(fresh_links(cs.drop_first(), ctx, suffix)));
    }
}

/// For every fresh package/target layout — the mirrored directory skeleton
/// present, writable and foreign to the package, every other mirrored
/// target missing — stowing succeeds, and the plan holds exactly one entry
/// per missing target, each carrying the link value of its own suffix.
pub proof fn lemma_stow_fresh_layout(children: Seq<Pair>, ctx: WalkCtx)
    requires
        wf_pairs(children),
        fresh_pairs(children),
    ensures
        stow_pairs(Map::empty(), children, ctx, Seq::empty()) == Ok::<PlanMap, ErrorView>(
            fresh_links(children, ctx, Seq::empty()),
        ),
{
    let empty = Seq::<Seq<char>>::empty();
    lemma_stow_fresh_pairs(Map::empty(), children, ctx, empty);
    assert(Map::<Seq<Seq<char>>, Seq<Seq<char>>>::empty().union_prefer_right(
        fresh_links(children, ctx, empty),
    ) =~= fresh_links(children, ctx, empty));
}

// ---------------------------------------------------------------------------
// Idempotence.  `restowed_*` describe the target tree after the planned
// links have been created: every missing target now holds the planned link
// (a symlink, which resolves to a directory and canonically to its source
// when the source entry was a whole directory), and nothing else changed.

pub open spec fn restowed_pair(p: Pair, q: Pair, ctx: WalkCtx, suffix: Seq<Seq<char>>) -> bool
    decreases p,
{
    &&& q.name@ == p.name@
    &&& match p.target {
        TargetInfo::Missing => (q.target matches TargetInfo::Symlink(v) && v.deep_view()
            == link_value_view(ctx.d, suffix)) || (q.target matches TargetInfo::SymlinkDir {
            writable: _,
            same_as_source: true,
        }),
        TargetInfo::Dir { writable, same_as_source } => q.target == p.target && (same_as_source
            || restowed_source(p.source, q.source, ctx, suffix)),
        TargetInfo::SymlinkDir { writable, same_as_source } => q.target == p.target && (
        same_as_source || restowed_source(p.source, q.source, ctx, suffix)),
        _ => q.target == p.target,
    }
}

pub open spec fn restowed_source(
    s: SourceInfo,
    s2: SourceInfo,
    ctx: WalkCtx,
    suffix: Seq<Seq<char>>,
) -> bool
    decreases s,
{
    match s {
        SourceInfo::NotDir => s2 == s,
        SourceInfo::Dir(cs) => s2 matches SourceInfo::Dir(cs2) && restowed_seq(
            cs@,
            cs2@,
            ctx,
            suffix,
        ),
    }
}

pub open spec fn restowed_seq(
    cs: Seq<Pair>,
    cs2: Seq<Pair>,
    ctx: WalkCtx,
    suffix: Seq<Seq<char>>,
) -> bool
    decreases cs,
{
    &&& cs2.len() == cs.len()
    &&& forall|i: int|
        #![trigger cs[i]]
        0 <= i < cs.len() ==> restowed_pair(cs[i], cs2[i], ctx, suffix.push(cs[i].name@))
}

/// Re-stowing one already-stowed pair records nothing, whatever the plan so
/// far holds.
proof fn lemma_restow_pair(m0: PlanMap, m: PlanMap, p: Pair, q: Pair, ctx: WalkCtx, suffix: Seq<Seq<char>>)
    requires
        restowed_pair(p, q, ctx, suffix),
        stow_pair(m0, p, ctx, suffix) is Ok,
    ensures
        stow_pair(m, q, ctx, suffix) == Ok::<PlanMap, ErrorView>(m),
    decreases p,
{
    match p.target {
        TargetInfo::Missing => {},
        TargetInfo::Dir { writable, same_as_source } => {
            if !same_as_source {
                assert(writable);
                match p.source {
                    SourceInfo::NotDir => {
                        assert(false);
                    },
                    SourceInfo::Dir(cs) => {
                        let cs2 = (q.source->Dir_0)@;
                        lemma_restow_pairs(m0, m, cs@, cs2, ctx, suffix);
                    },
                }
            }
        },
        TargetInfo::SymlinkDir { writable, same_as_source } => {
            if !same_as_source {
                assert(writable);
                match p.source {
                    SourceInfo::NotDir => {
                        assert(false);
                    },
                    SourceInfo::Dir(cs) => {
                        let cs2 = (q.source->Dir_0)@;
                        lemma_restow_pairs(m0, m, cs@, cs2, ctx, suffix);
                    },
                }
            }
        },
        _ => {},
    }
}

/// Re-stowing the already-stowed pairs of one directory records nothing.
proof fn lemma_restow_pairs(
    m0: PlanMap,
    m: PlanMap,
    cs: Seq<Pair>,
    cs2: Seq<Pair>,
    ctx: WalkCtx,
    suffix: Seq<Seq<char>>,
)
    requires
        restowed_seq(cs, cs2, ctx, suffix),
        stow_pairs(m0, cs, ctx, suffix) is Ok,
    ensures
        stow_pairs(m, cs2, ctx, suffix) == Ok::<PlanMap, ErrorView>(m),
    decreases cs,
{
    if cs.len() == 0 {
    } else {
        let sfx0 = suffix.push(cs[0].name@);
        assert(restowed_pair(cs[0], cs2[0], ctx, sfx0));
        assert(cs2[0].name@ == cs[0].name@);
        let m1 = stow_pair(m0, cs[0], ctx, sfx0)->Ok_0;
        lemma_restow_pair(m0, m, cs[0], cs2[0], ctx, sfx0);
        assert(restowed_seq(cs.drop_first(), cs2.drop_first(), ctx, suffix)) by {
            assert(forall|i: int|
                #![auto]
                0 <= i < cs.drop_first().len() ==> cs.drop_first()[i] == cs[i + 1]
                    && cs2.drop_first()[i] == cs2[i + 1]);
        }
        lemma_restow_pairs(m1, m, cs.drop_first(), cs2.drop_first(), ctx, suffix);
    }
}

/// Idempotence: if stowing a package succeeded, stowing it again against
/// the now-modified target — every planned link in place, nothing else
/// changed — succeeds with an empty plan: every entry classifies as a
/// no-op.
pub proof fn lemma_stow_idempotent(
    m0: PlanMap,
    children: Seq<Pair>,
    children2: Seq<Pair>,
    ctx: WalkCtx,
)
    requires
        restowed_seq(children, children2, ctx, Seq::empty()),
        stow_pairs(m0, children, ctx, Seq::empty()) is Ok,
    ensures
        stow_pairs(Map::empty(), children2, ctx, Seq::empty()) == Ok::<PlanMap, ErrorView>(
            Map::empty(),
        ),
{
    lemma_restow_pairs(m0, Map::empty(), children, children2, ctx, Seq::empty());
}

// ---------------------------------------------------------------------------
// Round trip: stow, apply, unstow.

/// The targets a fresh stow creates below one pair, in traversal order.
pub open spec fn missing_target_pair(p: Pair, ctx: WalkCtx, suffix: Seq<Seq<char>>) -> Seq<
    Seq<Seq<char>>,
>
    decreases p,
{
    match p.target {
        TargetInfo::Missing => seq![ctx.troot + suffix],
        TargetInfo::Dir { .. } => if (p.source matches SourceInfo::Dir(_)) {
            missing_targets((p.source->Dir_0)@, ctx, suffix)
        } else {
            Seq::empty()
        },
        _ => Seq::empty(),
    }
}

/// The targets a fresh stow creates for a directory's entries.
pub open spec fn missing_targets(cs: Seq<Pair>, ctx: WalkCtx, suffix: Seq<Seq<char>>) -> Seq<
    Seq<Seq<char>>,
>
    decreases cs,
{
    if cs.len() == 0 {
        Seq::empty()
    } else {
        missing_target_pair(cs[0], ctx, suffix.push(cs[0].name@)) + missing_targets(
            cs.drop_first(),
            ctx,
            suffix,
        )
    }
}

/// Unstowing one freshly-stowed pair marks exactly the targets the stow
/// created below it.
proof fn lemma_unstow_restowed_pair(
    u: UnstowList,
    p: Pair,
    q: Pair,
    ctx: WalkCtx,
    suffix: Seq<Seq<char>>,
)
    requires
        fresh_pair(p),
        restowed_pair(p, q, ctx, suffix),
    ensures
        unstow_pair(u, q, ctx, suffix) == Ok::<UnstowList, ErrorView>(
            u + missing_target_pair(p, ctx, suffix),
        ),
    decreases p,
{
    match p.target {
        TargetInfo::Missing => {
            assert(u.push(ctx.troot + suffix) =~= u + seq![ctx.troot + suffix]);
        },
        TargetInfo::Dir { writable, same_as_source } => {
            assert(writable && !same_as_source);
            let cs = (p.source->Dir_0)@;
            let cs2 = (q.source->Dir_0)@;
            lemma_unstow_restowed_pairs(u, cs, cs2, ctx, suffix);
        },
        _ => {
            assert(false);
        },
    }
}

/// Unstowing the freshly-stowed pairs of one directory marks exactly the
/// targets the stow created.
proof fn lemma_unstow_restowed_pairs(
    u: UnstowList,
    cs: Seq<Pair>,
    cs2: Seq<Pair>,
    ctx: WalkCtx,
    suffix: Seq<Seq<char>>,
)
    requires
        fresh_pairs(cs),
        restowed_seq(cs, cs2, ctx, suffix),
    ensures
        unstow_pairs(u, cs2, ctx, suffix) == Ok::<UnstowList, ErrorView>(
            u + missing_targets(cs, ctx, suffix),
        ),
    decreases cs,
{
    if cs.len() == 0 {
        assert(u + Seq::<Seq<Seq<char>>>::empty() =~= u);
    } else {
        let sfx0 = suffix.push(cs[0].name@);
        assert(restowed_pair(cs[0], cs2[0], ctx, sfx0));
        assert(cs2[0].name@ == cs[0].name@);
        lemma_unstow_restowed_pair(u, cs[0], cs2[0], ctx, sfx0);
        let u1 = u + missing_target_pair(cs[0], ctx, sfx0);
        assert(fresh_pairs(cs.drop_first()) && restowed_seq(cs.drop_first(), cs2.drop_first(), ctx, suffix))
            by {
            assert(forall|i: int|
                #![auto]
                0 <= i < cs.drop_first().len() ==> cs.drop_first()[i] == cs[i + 1]
                    && cs2.drop_first()[i] == cs2[i + 1]);
        }
        lemma_unstow_restowed_pairs(u1, cs.drop_first(), cs2.drop_first(), ctx, suffix);
        assert(u1 + missing_targets(cs.drop_first(), ctx, suffix) =~= u + missing_targets(
            cs,
            ctx,
            suffix,
        ));
    }
}

/// The created targets, as a set, are exactly the keys of the fresh plan.
proof fn lemma_missing_targets_set_pair(p: Pair, ctx: WalkCtx, suffix: Seq<Seq<char>>)
    ensures
        missing_target_pair(p, ctx, suffix).to_set() == fresh_link_pair(p, ctx, suffix).dom(),
    decreases p,
{
    match p.target {
        TargetInfo::Missing => {
            let mt = missing_target_pair(p, ctx, suffix);
            let tp = ctx.troot + suffix;
            assert(mt[0] == tp);
            assert(mt.contains(tp));
            assert forall|x: Seq<Seq<char>>| #![auto] mt.contains(x) implies x == tp by {
                let i = choose|i: int| 0 <= i < mt.len() && mt[i] == x;
            }
            assert(mt.to_set() =~= fresh_link_pair(p, ctx, suffix).dom());
        },
        TargetInfo::Dir { .. } => {
            if (p.source matches SourceInfo::Dir(_)) {
                lemma_missing_targets_set((p.source->Dir_0)@, ctx, suffix);
            } else {
                assert(missing_target_pair(p, ctx, suffix).to_set() =~= fresh_link_pair(
                    p,
                    ctx,
                    suffix,
                ).dom());
            }
        },
        _ => {
            assert(missing_target_pair(p, ctx, suffix).to_set() =~= fresh_link_pair(
                p,
                ctx,
                suffix,
            ).dom());
        },
    }
}

proof fn lemma_missing_targets_set(cs: Seq<Pair>, ctx: WalkCtx, suffix: Seq<Seq<char>>)
    ensures
        missing_targets(cs, ctx, suffix).to_set() == fresh_links(cs, ctx, suffix).dom(),
    decreases cs,
{
    if cs.len() == 0 {
        assert(missing_targets(cs, ctx, suffix).to_set() =~= fresh_links(cs, ctx, suffix).dom());
    } else {
        let sfx0 = suffix.push(cs[0].name@);
        lemma_missing_targets_set_pair(cs[0], ctx, sfx0);
        lemma_missing_targets_set(cs.drop_first(), ctx, suffix);
        let a = missing_target_pair(cs[0], ctx, sfx0);
        let b = missing_targets(cs.drop_first(), ctx, suffix);
        assert forall|x: Seq<Seq<char>>| #![auto] (a + b).contains(x) implies a.contains(x)
            || b.contains(x) by {
            let i = choose|i: int| 0 <= i < (a + b).len() && (a + b)[i] == x;
            if i < a.len() {
                assert(a[i] == x);
            } else {
                assert(b[i - a.len()] == x);
            }
        }
        assert forall|x: Seq<Seq<char>>| #![auto] a.contains(x) || b.contains(x) implies (a
            + b).contains(x) by {
            if a.contains(x) {
                let i = choose|i: int| 0 <= i < a.len() && a[i] == x;
                assert((a + b)[i] == x);
            } else {
                let i = choose|i: int| 0 <= i < b.len() && b[i] == x;
                assert((a + b)[a.len() + i] == x);
            }
        }
        assert(missing_targets(cs, ctx, suffix).to_set() =~= fresh_links(cs, ctx, suffix).dom());
    }
}

// After removing exactly the marked links from the post-stow tree, the
// pre-stow tree stands again: `removal_restores_*` relate the post-stow
// snapshot `q` to the tree left once every removable link of `q` is
// deleted.

pub open spec fn removal_restores_pair(q: Pair, p: Pair, ctx: WalkCtx, suffix: Seq<Seq<char>>) -> bool
    decreases q,
{
    &&& p.name@ == q.name@
    &&& match q.target {
        TargetInfo::Symlink(v) => if v.deep_view() == link_value_view(ctx.d, suffix) {
            p.target == TargetInfo::Missing
        } else {
            p.target == q.target
        },
        TargetInfo::SymlinkDir { writable, same_as_source } => if same_as_source {
            p.target == TargetInfo::Missing
        } else {
            p.target == q.target && removal_restores_source(q.source, p.source, ctx, suffix)
        },
        TargetInfo::Dir { writable, same_as_source } => p.target == q.target
            && removal_restores_source(q.source, p.source, ctx, suffix),
        _ => p.target == q.target,
    }
}

pub open spec fn removal_restores_source(
    s2: SourceInfo,
    s: SourceInfo,
    ctx: WalkCtx,
    suffix: Seq<Seq<char>>,
) -> bool
    decreases s2,
{
    match s2 {
        SourceInfo::NotDir => s == s2,
        SourceInfo::Dir(cs2) => s matches SourceInfo::Dir(cs) && removal_restores_seq(
            cs2@,
            cs@,
            ctx,
            suffix,
        ),
    }
}

pub open spec fn removal_restores_seq(
    cs2: Seq<Pair>,
    cs: Seq<Pair>,
    ctx: WalkCtx,
    suffix: Seq<Seq<char>>,
) -> bool
    decreases cs2,
{
    &&& cs.len() == cs2.len()
    &&& forall|i: int|
        #![trigger cs2[i]]
        0 <= i < cs2.len() ==> removal_restores_pair(cs2[i], cs[i], ctx, suffix.push(cs2[i].name@))
}

proof fn lemma_removal_restores_pair(p: Pair, q: Pair, ctx: WalkCtx, suffix: Seq<Seq<char>>)
    requires
        fresh_pair(p),
        restowed_pair(p, q, ctx, suffix),
    ensures
        removal_restores_pair(q, p, ctx, suffix),
    decreases p,
{
    match p.target {
        TargetInfo::Missing => {},
        TargetInfo::Dir { .. } => {
            let cs = (p.source->Dir_0)@;
            let cs2 = (q.source->Dir_0)@;
            lemma_removal_restores_pairs(cs, cs2, ctx, suffix);
        },
        _ => {
            assert(false);
        },
    }
}

proof fn lemma_removal_restores_pairs(cs: Seq<Pair>, cs2: Seq<Pair>, ctx: WalkCtx, suffix: Seq<Seq<char>>)
    requires
        fresh_pairs(cs),
        restowed_seq(cs, cs2, ctx, suffix),
    ensures
        removal_restores_seq(cs2, cs, ctx, suffix),
    decreases cs,
{
    assert forall|i: int| #![trigger cs2[i]] 0 <= i < cs2.len() implies removal_restores_pair(
        cs2[i],
        cs[i],
        ctx,
        suffix.push(cs2[i].name@),
    ) by {
        assert(restowed_pair(cs[i], cs2[i], ctx, suffix.push(cs[i].name@)));
        assert(fresh_pair(cs[i]));
        lemma_removal_restores_pair(cs[i], cs2[i], ctx, suffix.push(cs[i].name@));
    }
}

/// Round trip: after a fresh stow and its apply step, unstowing the same
/// package against the same target marks exactly the set of targets the
/// stow created — in particular nothing foreign — and deleting exactly
/// those marked links returns the target tree to its pre-stow state.
pub proof fn lemma_stow_unstow_round_trip(
    children: Seq<Pair>,
    children2: Seq<Pair>,
    ctx: WalkCtx,
)
    requires
        wf_pairs(children),
        fresh_pairs(children),
        restowed_seq(children, children2, ctx, Seq::empty()),
    ensures
        unstow_pairs(Seq::empty(), children2, ctx, Seq::empty()) == Ok::<UnstowList, ErrorView>(
            missing_targets(children, ctx, Seq::empty()),
        ),
        missing_targets(children, ctx, Seq::empty()).to_set() == fresh_links(
            children,
            ctx,
            Seq::empty(),
        ).dom(),
        removal_restores_seq(children2, children, ctx, Seq::empty()),
{
    let empty = Seq::<Seq<char>>::empty();
    lemma_unstow_restowed_pairs(Seq::empty(), children, children2, ctx, empty);
    assert(Seq::<Seq<Seq<char>>>::empty() + missing_targets(children, ctx, empty)
        =~= missing_targets(children, ctx, empty));
    lemma_missing_targets_set(children, ctx, empty);
    lemma_removal_restores_pairs(children, children2, ctx, empty);
}

// ---------------------------------------------------------------------------
// Foreign-file protection: an ordinary file that the traversal actually
// probes fails the whole run; a missing path is silently skipped (visible
// directly in the `Missing` arms of the classification above).

/// The stow traversal reaches an ordinary file at a mirrored target below
/// this pair: the pair itself is one, or the pair is a descended-into
/// directory one of whose entries reaches one.
pub open spec fn stow_probes_file_pair(p: Pair) -> bool
    decreases p,
{
    match p.target {
        TargetInfo::File => true,
        TargetInfo::Dir { writable, same_as_source } => !same_as_source && writable && (
        p.source matches SourceInfo::Dir(_)) && stow_probes_file_pairs((p.source->Dir_0)@),
        TargetInfo::SymlinkDir { writable, same_as_source } => !same_as_source && writable && (
        p.source matches SourceInfo::Dir(_)) && stow_probes_file_pairs((p.source->Dir_0)@),
        _ => false,
    }
}

pub open spec fn stow_probes_file_pairs(cs: Seq<Pair>) -> bool
    decreases cs,
{
    exists|i: int| #![trigger cs[i]] 0 <= i < cs.len() && stow_probes_file_pair(cs[i])
}

proof fn lemma_stow_probed_file_fails_pair(m: PlanMap, p: Pair, ctx: WalkCtx, suffix: Seq<Seq<char>>)
    requires
        stow_probes_file_pair(p),
    ensures
        stow_pair(m, p, ctx, suffix) is Err,
    decreases p,
{
    match p.target {
        TargetInfo::File => {},
        TargetInfo::Dir { .. } => {
            lemma_stow_probed_file_fails_pairs(m, (p.source->Dir_0)@, ctx, suffix);
        },
        TargetInfo::SymlinkDir { .. } => {
            lemma_stow_probed_file_fails_pairs(m, (p.source->Dir_0)@, ctx, suffix);
        },
        _ => {
            assert(false);
        },
    }
}

proof fn lemma_stow_probed_file_fails_pairs(m: PlanMap, cs: Seq<Pair>, ctx: WalkCtx, suffix: Seq<Seq<char>>)
    requires
        stow_probes_file_pairs(cs),
    ensures
        stow_pairs(m, cs, ctx, suffix) is Err,
    decreases cs,
{
    let i = choose|i: int| #![trigger cs[i]] 0 <= i < cs.len() && stow_probes_file_pair(cs[i]);
    match stow_pair(m, cs[0], ctx, suffix.push(cs[0].name@)) {
        Ok(m2) => {
            if i == 0 {
                lemma_stow_probed_file_fails_pair(m, cs[0], ctx, suffix.push(cs[0].name@));
            } else {
                assert(cs.drop_first()[i - 1] == cs[i]);
                assert(stow_probes_file_pairs(cs.drop_first()));
                lemma_stow_probed_file_fails_pairs(m2, cs.drop_first(), ctx, suffix);
            }
        },
        Err(e) => {},
    }
}

/// If the target holds an ordinary file at a path the package wants to
/// occupy and the traversal reaches it, stowing fails: no plan is produced.
/// (The error it surfaces first depends on traversal order; the reached
/// file itself classifies as target-exists.)
pub proof fn lemma_stow_foreign_file_fails(
    m: PlanMap,
    children: Seq<Pair>,
    ctx: WalkCtx,
    suffix: Seq<Seq<char>>,
)
    requires
        stow_probes_file_pairs(children),
    ensures
        !(stow_pairs(m, children, ctx, suffix) is Ok),
{
    lemma_stow_probed_file_fails_pairs(m, children, ctx, suffix);
}

/// The unstow traversal reaches an ordinary file at a mirrored target below
/// this pair.
pub open spec fn unstow_probes_file_pair(p: Pair) -> bool
    decreases p,
{
    match p.target {
        TargetInfo::File => true,
        TargetInfo::Dir { writable, same_as_source } => writable && (p.source
            matches SourceInfo::Dir(_)) && unstow_probes_file_pairs((p.source->Dir_0)@),
        TargetInfo::SymlinkDir { writable, same_as_source } => !same_as_source && writable && (
        p.source matches SourceInfo::Dir(_)) && unstow_probes_file_pairs((p.source->Dir_0)@),
        _ => false,
    }
}

pub open spec fn unstow_probes_file_pairs(cs: Seq<Pair>) -> bool
    decreases cs,
{
    exists|i: int| #![trigger cs[i]] 0 <= i < cs.len() && unstow_probes_file_pair(cs[i])
}

proof fn lemma_unstow_probed_file_fails_pair(
    u: UnstowList,
    p: Pair,
    ctx: WalkCtx,
    suffix: Seq<Seq<char>>,
)
    requires
        unstow_probes_file_pair(p),
    ensures
        unstow_pair(u, p, ctx, suffix) is Err,
    decreases p,
{
    match p.target {
        TargetInfo::File => {},
        TargetInfo::Dir { .. } => {
            lemma_unstow_probed_file_fails_pairs(u, (p.source->Dir_0)@, ctx, suffix);
        },
        TargetInfo::SymlinkDir { .. } => {
            lemma_unstow_probed_file_fails_pairs(u, (p.source->Dir_0)@, ctx, suffix);
        },
        _ => {
            assert(false);
        },
    }
}

proof fn lemma_unstow_probed_file_fails_pairs(
    u: UnstowList,
    cs: Seq<Pair>,
    ctx: WalkCtx,
    suffix: Seq<Seq<char>>,
)
    requires
        unstow_probes_file_pairs(cs),
    ensures
        unstow_pairs(u, cs, ctx, suffix) is Err,
    decreases cs,
{
    let i = choose|i: int| #![trigger cs[i]] 0 <= i < cs.len() && unstow_probes_file_pair(cs[i]);
    match unstow_pair(u, cs[0], ctx, suffix.push(cs[0].name@)) {
        Ok(u2) => {
            if i == 0 {
                lemma_unstow_probed_file_fails_pair(u, cs[0], ctx, suffix.push(cs[0].name@));
            } else {
                assert(cs.drop_first()[i - 1] == cs[i]);
                assert(unstow_probes_file_pairs(cs.drop_first()));
                lemma_unstow_probed_file_fails_pairs(u2, cs.drop_first(), ctx, suffix);
            }
        },
        Err(e) => {},
    }
}

/// Unstowing refuses to proceed over an ordinary file it actually probes:
/// no removal list is produced.  A path that simply does not exist is
/// silently skipped, as the `Missing` arm of the classification says.
pub proof fn lemma_unstow_foreign_file_fails(
    u: UnstowList,
    children: Seq<Pair>,
    ctx: WalkCtx,
    suffix: Seq<Seq<char>>,
)
    requires
        unstow_probes_file_pairs(children),
    ensures
        !(unstow_pairs(u, children, ctx, suffix) is Ok),
{
    lemma_unstow_probed_file_fails_pairs(u, children, ctx, suffix);
}

/// Each link value of a fresh-layout plan, resolved from its own target
/// entry's directory against the canonical roots, canonicalizes to exactly
/// its source entry.
pub proof fn lemma_fresh_plan_resolves(
    children: Seq<Pair>,
    ctx: WalkCtx,
    canon_s: Seq<Seq<char>>,
    canon_t: Seq<Seq<char>>,
)
    requires
        wf_pairs(children),
        ctx.d == rel_prefix(canon_s, canon_t),
        is_normal_path(canon_s),
        is_normal_path(canon_t),
    ensures
        forall|k: Seq<Seq<char>>|
            #![auto]
            fresh_links(children, ctx, Seq::empty()).contains_key(k) ==> resolve_rel(
                canon_t + k.skip(ctx.troot.len() as int).drop_last(),
                fresh_links(children, ctx, Seq::empty())[k],
            ) == canon_s + k.skip(ctx.troot.len() as int),
{
    let empty = Seq::<Seq<char>>::empty();
    assert forall|k: Seq<Seq<char>>|
        #![auto]
        fresh_links(children, ctx, empty).contains_key(k) implies resolve_rel(
        canon_t + k.skip(ctx.troot.len() as int).drop_last(),
        fresh_links(children, ctx, empty)[k],
    ) == canon_s + k.skip(ctx.troot.len() as int) by {
        lemma_fresh_links_keys(children, ctx, empty, k);
        let sfx = k.skip(ctx.troot.len() as int);
        lemma_link_value_resolves(canon_s, canon_t, sfx);
    }
}

/// suffix`, and maps to the link value of its own suffix.
proof fn lemma_fresh_link_pair_keys(p: Pair, ctx: WalkCtx, suffix: Seq<Seq<char>>, k: Seq<Seq<char>>)
    requires
        wf_pair(p),
        is_normal_path(suffix),
        fresh_link_pair(p, ctx, suffix).contains_key(k),
    ensures
        (ctx.troot + suffix).is_prefix_of(k),
        k.len() >= (ctx.troot + suffix).len(),
        fresh_link_pair(p, ctx, suffix)[k] == link_value_view(
            ctx.d,
            k.skip(ctx.troot.len() as int),
        ),
        is_normal_path(k.skip(ctx.troot.len() as int)),
    decreases p,
{
    match p.target {
        TargetInfo::Missing => {
            assert(k == ctx.troot + suffix);
            assert((ctx.troot + suffix).is_prefix_of(k));
            assert(k.skip(ctx.troot.len() as int) =~= suffix);
        },
        TargetInfo::Dir { .. } => {
            if (p.source matches SourceInfo::Dir(_)) {
                lemma_fresh_links_keys((p.source->Dir_0)@, ctx, suffix, k);
                assert((ctx.troot + suffix).is_prefix_of(k));
            } else {
                assert(false);
            }
        },
        _ => {
            assert(false);
        },
    }
}

/// Every key of `fresh_links(cs, ctx, suffix)` strictly extends `ctx.troot +
/// suffix`, continues with the name of one of the entries, and maps to the
/// link value of its own suffix.
proof fn lemma_fresh_links_keys(
    cs: Seq<Pair>,
    ctx: WalkCtx,
    suffix: Seq<Seq<char>>,
    k: Seq<Seq<char>>,
)
    requires
        wf_pairs(cs),
        is_normal_path(suffix),
        fresh_links(cs, ctx, suffix).contains_key(k),
    ensures
        (ctx.troot + suffix).is_prefix_of(k),
        k.len() > (ctx.troot + suffix).len(),
        exists|i: int|
            0 <= i < cs.len() && k[(ctx.troot + suffix).len() as int] == (#[trigger] cs[i].name@),
        fresh_links(cs, ctx, suffix)[k] == link_value_view(ctx.d, k.skip(ctx.troot.len() as int)),
        k.skip(ctx.troot.len() as int).len() >= 1,
        is_normal_path(k.skip(ctx.troot.len() as int)),
    decreases cs,
{
    let base = ctx.troot + suffix;
    let m0 = fresh_link_pair(cs[0], ctx, suffix.push(cs[0].name@));
    let rest = fresh_links(cs.drop_first(), ctx, suffix);
    assert(wf_pairs(cs.drop_first())) by {
        assert(forall|i: int| #![auto] 0 <= i < cs.drop_first().len() ==> cs.drop_first()[i] == cs[i + 1]);
    }
    assert(wf_pair(cs[0]));
    assert(is_normal_path(suffix.push(cs[0].name@))) by {
        assert(forall|i: int|
            #![auto]
            0 <= i < suffix.len() ==> suffix.push(cs[0].name@)[i] == suffix[i]);
    }
    if rest.contains_key(k) {
        lemma_fresh_links_keys(cs.drop_first(), ctx, suffix, k);
        let i = choose|i: int|
            0 <= i < cs.drop_first().len() && k[base.len() as int] == (#[trigger] cs.drop_first()[i].name@);
        assert(cs[i + 1].name@ == cs.drop_first()[i].name@);
        assert(base.is_prefix_of(k));
    } else {
        assert(m0.contains_key(k));
        lemma_fresh_link_pair_keys(cs[0], ctx, suffix.push(cs[0].name@), k);
        let child_base = ctx.troot + suffix.push(cs[0].name@);
        assert(child_base =~= base.push(cs[0].name@));
        assert(k.len() >= child_base.len() == base.len() + 1);
        assert forall|j: int| 0 <= j < base.len() implies k[j] == base[j] by {
            assert(k.take(child_base.len() as int)[j] == child_base[j]);
        }
        assert(base.is_prefix_of(k)) by {
            assert(k.take(base.len() as int) =~= base);
        }
        assert(k[base.len() as int] == child_base[base.len() as int]) by {
            assert(k.take(child_base.len() as int)[base.len() as int] == child_base[base.len() as int]);
        }
        assert(k[base.len() as int] == cs[0].name@);
    }
}

} // verus!
