use vstd::prelude::*;

use crate::error::Error;
use crate::error::ErrorView;
use crate::paths::clone_path;
use crate::paths::is_normal_path;
use crate::paths::push_path;
use crate::paths::rel_prefix;
use crate::plan::PlanMap;
use crate::plan::StowPlan;
use crate::stow::new_stow_list;
use crate::stow::stow_descend;
use crate::tree::SourceInfo;
use crate::tree::WalkCtx;
use crate::unstow::new_unstow_list;
use crate::unstow::unstow_descend;
use crate::unstow::UnstowList;

verus! {

/// One package as handed to the aggregator: the snapshot of its source tree
/// against the shared target, and its roots.
pub struct Package {
    pub source: SourceInfo,
    /// The package root, as given on this invocation.
    pub source_root: Vec<String>,
    /// The package root, canonicalized.
    pub canon_source_root: Vec<String>,
}

/// The traversal context of one package against the shared target root.
pub open spec fn package_ctx(
    pkg: Package,
    target_root: Vec<String>,
    canon_target_root: Vec<String>,
) -> WalkCtx {
    WalkCtx {
        sroot: pkg.source_root.deep_view(),
        troot: target_root.deep_view(),
        d: rel_prefix(pkg.canon_source_root.deep_view(), canon_target_root.deep_view()),
    }
}

/// What stowing one package yields on its own.
pub open spec fn stow_package_spec(
    pkg: Package,
    target_writable: bool,
    target_root: Vec<String>,
    canon_target_root: Vec<String>,
) -> Result<PlanMap, ErrorView> {
    stow_descend(
        Map::empty(),
        pkg.source,
        target_writable,
        package_ctx(pkg, target_root, canon_target_root),
        Seq::empty(),
    )
}

/// What unstowing one package yields on its own.
pub open spec fn unstow_package_spec(
    pkg: Package,
    target_writable: bool,
    target_root: Vec<String>,
    canon_target_root: Vec<String>,
) -> Result<UnstowList, ErrorView> {
    unstow_descend(
        Seq::empty(),
        pkg.source,
        target_writable,
        package_ctx(pkg, target_root, canon_target_root),
        Seq::empty(),
    )
}

/// What merging one (target, value) entry into the shared map does: the
/// moment two packages claim the same target with different link values the
/// whole run fails; the same value twice collapses into one entry.
pub open spec fn merge_entry(
    m: PlanMap,
    target: Seq<Seq<char>>,
    value: Seq<Seq<char>>,
) -> Result<PlanMap, ErrorView> {
    if m.contains_key(target) && m[target] != value {
        Err(
            ErrorView::CrossPackageConflict {
                target: target,
                value_a: m[target],
                value_b: value,
            },
        )
    } else {
        Ok(m.insert(target, value))
    }
}

/// Merging a package's entries into the shared map, in order.
pub open spec fn merge_entries(m: PlanMap, s: Seq<(Vec<String>, Vec<String>)>) -> Result<
    PlanMap,
    ErrorView,
>
    decreases s.len(),
{
    if s.len() == 0 {
        Ok(m)
    } else {
        match merge_entry(m, s[0].0.deep_view(), s[0].1.deep_view()) {
            Ok(m2) => merge_entries(m2, s.drop_first()),
            Err(e) => Err(e),
        }
    }
}

/// Merging the per-package plans, package by package.
pub open spec fn merge_plans(m: PlanMap, plans: Seq<StowPlan>) -> Result<PlanMap, ErrorView>
    decreases plans.len(),
{
    if plans.len() == 0 {
        Ok(m)
    } else {
        match merge_entries(m, plans[0].entry_seq()) {
            Ok(m2) => merge_plans(m2, plans.drop_first()),
            Err(e) => Err(e),
        }
    }
}

/// Merges one package's plan into the shared plan, as [`merge_entries`] says.
fn merge_one(out: &mut StowPlan, p: &StowPlan) -> (r: Result<(), Error>)
    requires
        old(out).wf(),
    ensures
        final(out).wf(),
        match r {
            Ok(()) => merge_entries(old(out)@, p.entry_seq()) == Ok::<PlanMap, ErrorView>(
                final(out)@,
            ),
            Err(e) => merge_entries(old(out)@, p.entry_seq()) == Err::<PlanMap, ErrorView>(e@),
        },
{
    let n = p.len();
    let mut b: usize = 0;
    let ghost m0 = out@;
    proof {
        assert(p.entry_seq().skip(0) =~= p.entry_seq());
    }
    while b < n
        invariant
            out.wf(),
            b <= n,
            n == p.entry_seq().len(),
            m0 == old(out)@,
            merge_entries(m0, p.entry_seq()) == merge_entries(out@, p.entry_seq().skip(b as int)),
        decreases n - b,
    {
        let entry = p.get(b);
        let target = clone_path(&entry.0);
        let value = clone_path(&entry.1);
        let ghost before = out@;
        let ghost rest = p.entry_seq().skip(b as int);
        proof {
            assert(rest[0] == p.entry_seq()[b as int]);
            assert(rest.drop_first() =~= p.entry_seq().skip(b + 1));
        }
        match out.record(target, value) {
            Ok(()) => {
                b += 1;
            },
            Err(e) => {
                match e {
                    Error::DuplicateTarget { target, existing, incoming } => {
                        return Err(
                            Error::CrossPackageConflict {
                                target,
                                value_a: existing,
                                value_b: incoming,
                            },
                        );
                    },
                    _ => {
                        proof {
                            assert(false);
                        }
                        return Err(e);
                    },
                }
            },
        }
    }
    proof {
        assert(p.entry_seq().skip(n as int) =~= Seq::<(Vec<String>, Vec<String>)>::empty());
    }
    Ok(())
}

/// Merges all per-package stow plans into one final plan, failing the whole
/// run with a cross-package conflict the moment two packages claim one
/// target with different link values; no plan is handed out unless every
/// package merged cleanly.
pub fn merge_stow_lists(plans: &Vec<StowPlan>) -> (r: Result<StowPlan, Error>)
    ensures
        match r {
            Ok(out) => out.wf() && merge_plans(Map::empty(), plans@) == Ok::<PlanMap, ErrorView>(
                out@,
            ),
            Err(e) => merge_plans(Map::empty(), plans@) == Err::<PlanMap, ErrorView>(e@),
        },
{
    let mut out = StowPlan::new();
    let mut a: usize = 0;
    proof {
        assert(plans@.skip(0) =~= plans@);
    }
    while a < plans.len()
        invariant
            out.wf(),
            a <= plans@.len(),
            merge_plans(Map::empty(), plans@) == merge_plans(out@, plans@.skip(a as int)),
        decreases plans@.len() - a,
    {
        let ghost rest = plans@.skip(a as int);
        proof {
            assert(rest[0] == plans@[a as int]);
            assert(rest.drop_first() =~= plans@.skip(a + 1));
        }
        match merge_one(&mut out, &plans[a]) {
            Ok(()) => {
                a += 1;
            },
            Err(e) => {
                return Err(e);
            },
        }
    }
    proof {
        assert(plans@.skip(plans@.len() as int) =~= Seq::<StowPlan>::empty());
    }
    Ok(out)
}

/// Whatever a merge that succeeds was given, the final plan honours it: the
/// accumulator survives as a submap, and every entry merged along the way
/// is in the final plan with its own value.
proof fn lemma_merge_entries_claims(
    acc: PlanMap,
    s: Seq<(Vec<String>, Vec<String>)>,
    m: PlanMap,
)
    requires
        merge_entries(acc, s) == Ok::<PlanMap, ErrorView>(m),
    ensures
        acc.submap_of(m),
        forall|i: int|
            #![auto]
            0 <= i < s.len() ==> m.contains_key(s[i].0.deep_view()) && m[s[i].0.deep_view()]
                == s[i].1.deep_view(),
    decreases s.len(),
{
    if s.len() == 0 {
        assert(m =~= acc);
    } else {
        let k0 = s[0].0.deep_view();
        let v0 = s[0].1.deep_view();
        let acc2 = acc.insert(k0, v0);
        assert(merge_entries(acc2, s.drop_first()) == Ok::<PlanMap, ErrorView>(m));
        lemma_merge_entries_claims(acc2, s.drop_first(), m);
        assert(acc.submap_of(acc2));
        vstd::map_lib::lemma_submap_of_trans(acc, acc2, m);
        assert forall|i: int| #![auto] 0 <= i < s.len() implies m.contains_key(s[i].0.deep_view())
            && m[s[i].0.deep_view()] == s[i].1.deep_view() by {
            if i == 0 {
                assert(acc2.dom().contains(k0) && acc2[k0] == v0);
            } else {
                assert(s.drop_first()[i - 1] == s[i]);
            }
        }
    }
}

proof fn lemma_merge_plans_claims(acc: PlanMap, plans: Seq<StowPlan>, m: PlanMap)
    requires
        merge_plans(acc, plans) == Ok::<PlanMap, ErrorView>(m),
    ensures
        forall|i: int, j: int|
            #![auto]
            0 <= i < plans.len() && 0 <= j < plans[i].entry_seq().len() ==> m.contains_key(
                plans[i].entry_seq()[j].0.deep_view(),
            ) && m[plans[i].entry_seq()[j].0.deep_view()] == plans[i].entry_seq()[j].1.deep_view(),
    decreases plans.len(),
{
    if plans.len() > 0 {
        let m1 = merge_entries(acc, plans[0].entry_seq())->Ok_0;
        lemma_merge_plans_claims(m1, plans.drop_first(), m);
        lemma_merge_entries_claims(acc, plans[0].entry_seq(), m1);
        lemma_merge_plans_monotone(m1, plans.drop_first(), m);
        assert forall|i: int, j: int|
            #![auto]
            0 <= i < plans.len() && 0 <= j < plans[i].entry_seq().len() implies m.contains_key(
            plans[i].entry_seq()[j].0.deep_view(),
        ) && m[plans[i].entry_seq()[j].0.deep_view()] == plans[i].entry_seq()[j].1.deep_view() by {
            if i == 0 {
                let key = plans[0].entry_seq()[j].0.deep_view();
                assert(m1.dom().contains(key));
                assert(m.dom().contains(key) && m[key] == m1[key]);
            } else {
                assert(plans.drop_first()[i - 1] == plans[i]);
            }
        }
    }
}

/// A merge that succeeds never drops or rewrites what its accumulator held.
proof fn lemma_merge_plans_monotone(acc: PlanMap, plans: Seq<StowPlan>, m: PlanMap)
    requires
        merge_plans(acc, plans) == Ok::<PlanMap, ErrorView>(m),
    ensures
        acc.submap_of(m),
    decreases plans.len(),
{
    if plans.len() == 0 {
        assert(m =~= acc);
    } else {
        let m1 = merge_entries(acc, plans[0].entry_seq())->Ok_0;
        lemma_merge_entries_claims(acc, plans[0].entry_seq(), m1);
        lemma_merge_plans_monotone(m1, plans.drop_first(), m);
        vstd::map_lib::lemma_submap_of_trans(acc, m1, m);
    }
}

/// Conflict detection: the moment two packages claim the same target with
/// different link values, merging their plans cannot succeed — no final
/// plan exists, so no symlink of either package is ever created.
pub proof fn lemma_cross_package_conflict_fails(
    plans: Seq<StowPlan>,
    a: int,
    b: int,
    k: Seq<Seq<char>>,
)
    requires
        0 <= a < plans.len(),
        0 <= b < plans.len(),
        plans[a].wf(),
        plans[b].wf(),
        plans[a]@.contains_key(k),
        plans[b]@.contains_key(k),
        plans[a]@[k] != plans[b]@[k],
    ensures
        !(merge_plans(Map::empty(), plans) is Ok),
{
    if merge_plans(Map::empty(), plans) is Ok {
        let m = merge_plans(Map::empty(), plans)->Ok_0;
        lemma_merge_plans_claims(Map::empty(), plans, m);
        crate::plan::lemma_entries_map_dom(plans[a].entry_seq(), k);
        let i = choose|i: int|
            0 <= i < plans[a].entry_seq().len() && (#[trigger] plans[a].entry_seq()[i].0.deep_view())
                == k;
        crate::plan::lemma_entries_map_get(plans[a].entry_seq(), i);
        crate::plan::lemma_entries_map_dom(plans[b].entry_seq(), k);
        let j = choose|j: int|
            0 <= j < plans[b].entry_seq().len() && (#[trigger] plans[b].entry_seq()[j].0.deep_view())
                == k;
        crate::plan::lemma_entries_map_get(plans[b].entry_seq(), j);
        assert(m[k] == plans[a]@[k]);
        assert(m[k] == plans[b]@[k]);
        assert(false);
    }
}

/// Runs the traversal once per requested package against the shared target
/// root, each into a fresh plan, then merges the per-package plans into one
/// final plan.  The whole run fails on the first package whose traversal
/// fails, or on the first cross-package conflict during the merge: no plan
/// is handed out unless every package planned and merged cleanly.
pub fn stow_packages(
    pkgs: &Vec<Package>,
    target_writable: bool,
    target_root: &Vec<String>,
    canon_target_root: &Vec<String>,
) -> (r: Result<StowPlan, Error>)
    requires
        is_normal_path(canon_target_root.deep_view()),
        forall|i: int|
            0 <= i < pkgs@.len() ==> is_normal_path(
                (#[trigger] pkgs@[i]).canon_source_root.deep_view(),
            ),
    ensures
        match r {
            Ok(out) => out.wf() && (exists|plans: Seq<StowPlan>|
                {
                    &&& plans.len() == pkgs@.len()
                    &&& (forall|i: int|
                        0 <= i < pkgs@.len() ==> stow_package_spec(
                            #[trigger] pkgs@[i],
                            target_writable,
                            *target_root,
                            *canon_target_root,
                        ) == Ok::<PlanMap, ErrorView>(plans[i]@))
                    &&& #[trigger] merge_plans(Map::empty(), plans) == Ok::<PlanMap, ErrorView>(
                        out@,
                    )
                }),
            Err(e) => (exists|i: int|
                {
                    &&& 0 <= i < pkgs@.len()
                    &&& stow_package_spec(
                        #[trigger] pkgs@[i],
                        target_writable,
                        *target_root,
                        *canon_target_root,
                    ) == Err::<PlanMap, ErrorView>(e@)
                    &&& (forall|j: int|
                        0 <= j < i ==> (#[trigger] stow_package_spec(
                            pkgs@[j],
                            target_writable,
                            *target_root,
                            *canon_target_root,
                        )) is Ok)
                }) || (exists|plans: Seq<StowPlan>|
                {
                    &&& plans.len() == pkgs@.len()
                    &&& (forall|i: int|
                        0 <= i < pkgs@.len() ==> stow_package_spec(
                            #[trigger] pkgs@[i],
                            target_writable,
                            *target_root,
                            *canon_target_root,
                        ) == Ok::<PlanMap, ErrorView>(plans[i]@))
                    &&& #[trigger] merge_plans(Map::empty(), plans) == Err::<PlanMap, ErrorView>(
                        e@,
                    )
                }),
        },
{
    let mut plans: Vec<StowPlan> = Vec::new();
    let mut a: usize = 0;
    while a < pkgs.len()
        invariant
            a <= pkgs@.len(),
            plans@.len() == a,
            is_normal_path(canon_target_root.deep_view()),
            forall|i: int|
                0 <= i < pkgs@.len() ==> is_normal_path(
                    (#[trigger] pkgs@[i]).canon_source_root.deep_view(),
                ),
            forall|i: int|
                0 <= i < a ==> stow_package_spec(
                    #[trigger] pkgs@[i],
                    target_writable,
                    *target_root,
                    *canon_target_root,
                ) == Ok::<PlanMap, ErrorView>(plans@[i]@),
        decreases pkgs@.len() - a,
    {
        let pkg = &pkgs[a];
        match new_stow_list(
            &pkg.source,
            target_writable,
            &pkg.source_root,
            target_root,
            &pkg.canon_source_root,
            canon_target_root,
        ) {
            Ok(plan) => {
                plans.push(plan);
                a += 1;
            },
            Err(e) => {
                return Err(e);
            },
        }
    }
    match merge_stow_lists(&plans) {
        Ok(out) => Ok(out),
        Err(e) => Err(e),
    }
}

/// Runs the traversal once per requested package and concatenates the
/// per-package removal lists: each member was individually verified against
/// its own package's link value, so no cross-package conflict is possible.
pub fn unstow_packages(
    pkgs: &Vec<Package>,
    target_writable: bool,
    target_root: &Vec<String>,
    canon_target_root: &Vec<String>,
) -> (r: Result<Vec<Vec<String>>, Error>)
    requires
        is_normal_path(canon_target_root.deep_view()),
        forall|i: int|
            0 <= i < pkgs@.len() ==> is_normal_path(
                (#[trigger] pkgs@[i]).canon_source_root.deep_view(),
            ),
    ensures
        match r {
            Ok(all) => exists|lists: Seq<Vec<Vec<String>>>|
                {
                    &&& lists.len() == pkgs@.len()
                    &&& (forall|i: int|
                        0 <= i < pkgs@.len() ==> unstow_package_spec(
                            #[trigger] pkgs@[i],
                            target_writable,
                            *target_root,
                            *canon_target_root,
                        ) == Ok::<UnstowList, ErrorView>(lists[i].deep_view()))
                    &&& all.deep_view() == #[trigger] concat_acc(Seq::empty(), lists)
                },
            Err(e) => exists|i: int|
                {
                    &&& 0 <= i < pkgs@.len()
                    &&& unstow_package_spec(
                        #[trigger] pkgs@[i],
                        target_writable,
                        *target_root,
                        *canon_target_root,
                    ) == Err::<UnstowList, ErrorView>(e@)
                    &&& (forall|j: int|
                        0 <= j < i ==> (#[trigger] unstow_package_spec(
                            pkgs@[j],
                            target_writable,
                            *target_root,
                            *canon_target_root,
                        )) is Ok)
                },
        },
{
    let mut lists: Vec<Vec<Vec<String>>> = Vec::new();
    let mut a: usize = 0;
    while a < pkgs.len()
        invariant
            a <= pkgs@.len(),
            lists@.len() == a,
            is_normal_path(canon_target_root.deep_view()),
            forall|i: int|
                0 <= i < pkgs@.len() ==> is_normal_path(
                    (#[trigger] pkgs@[i]).canon_source_root.deep_view(),
                ),
            forall|i: int|
                0 <= i < a ==> unstow_package_spec(
                    #[trigger] pkgs@[i],
                    target_writable,
                    *target_root,
                    *canon_target_root,
                ) == Ok::<UnstowList, ErrorView>(lists@[i].deep_view()),
        decreases pkgs@.len() - a,
    {
        let pkg = &pkgs[a];
        match new_unstow_list(
            &pkg.source,
            target_writable,
            &pkg.source_root,
            target_root,
            &pkg.canon_source_root,
            canon_target_root,
        ) {
            Ok(list) => {
                lists.push(list);
                a += 1;
            },
            Err(e) => {
                return Err(e);
            },
        }
    }
    Ok(concat_unstow_lists(&lists))
}

/// Appending each package's removable paths, package by package: unstow
/// plans concatenate, since every member was individually verified against
/// its own package's link value and no cross-package conflict is possible.
pub open spec fn concat_acc(u: UnstowList, s: Seq<Vec<Vec<String>>>) -> UnstowList
    decreases s.len(),
{
    if s.len() == 0 {
        u
    } else {
        concat_acc(u + s[0].deep_view(), s.drop_first())
    }
}

/// Concatenates the per-package unstow lists into the final removal list.
pub fn concat_unstow_lists(lists: &Vec<Vec<Vec<String>>>) -> (r: Vec<Vec<String>>)
    ensures
        r.deep_view() == concat_acc(Seq::empty(), lists@),
{
    let mut out: Vec<Vec<String>> = Vec::new();
    let mut a: usize = 0;
    proof {
        assert(out.deep_view() =~= Seq::<Seq<Seq<char>>>::empty());
        assert(lists@.skip(0) =~= lists@);
    }
    while a < lists.len()
        invariant
            a <= lists@.len(),
            concat_acc(Seq::empty(), lists@) == concat_acc(out.deep_view(), lists@.skip(a as int)),
        decreases lists@.len() - a,
    {
        let ghost rest = lists@.skip(a as int);
        let ghost base = out.deep_view();
        proof {
            assert(rest[0] == lists@[a as int]);
            assert(rest.drop_first() =~= lists@.skip(a + 1));
        }
        let inner = &lists[a];
        let mut b: usize = 0;
        while b < inner.len()
            invariant
                b <= inner@.len(),
                inner == &lists[a as int],
                a < lists@.len(),
                base + lists@[a as int].deep_view().take(b as int) =~= out.deep_view(),
            decreases inner@.len() - b,
        {
            push_path(&mut out, clone_path(&inner[b]));
            proof {
                assert(base + lists@[a as int].deep_view().take(b + 1) =~= out.deep_view());
            }
            b += 1;
        }
        proof {
            assert(lists@[a as int].deep_view().take(lists@[a as int].deep_view().len() as int)
                =~= lists@[a as int].deep_view());
            assert(out.deep_view() == base + lists@[a as int].deep_view());
        }
        a += 1;
    }
    proof {
        assert(lists@.skip(lists@.len() as int) =~= Seq::<Vec<Vec<String>>>::empty());
    }
    out
}

} // verus!
