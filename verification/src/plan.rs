use vstd::prelude::*;

use crate::error::Error;
use crate::error::ErrorView;
use crate::paths::clone_path;
use crate::paths::path_eq;

verus! {

/// The mathematical shape of a stow plan: target path to link value.
pub type PlanMap = Map<Seq<Seq<char>>, Seq<Seq<char>>>;

/// Map carried by a list of (target, link value) entries; a later entry for
/// the same target wins, though a well-formed plan never repeats a target.
pub open spec fn entries_map(s: Seq<(Vec<String>, Vec<String>)>) -> PlanMap
    decreases s.len(),
{
    if s.len() == 0 {
        Map::empty()
    } else {
        entries_map(s.drop_last()).insert(s.last().0.deep_view(), s.last().1.deep_view())
    }
}

/// No two entries name the same target.
pub open spec fn entries_unique(s: Seq<(Vec<String>, Vec<String>)>) -> bool {
    forall|i: int, j: int|
        #![auto]
        0 <= i < j < s.len() ==> s[i].0.deep_view() != s[j].0.deep_view()
}

/// Insert-or-conflict: what recording one (target, value) pair does to a
/// plan's map.  Recording the same value for the same target twice is a
/// no-op; a second, different value for one target is a conflict.
pub open spec fn record_result(m: PlanMap, target: Seq<Seq<char>>, value: Seq<Seq<char>>) -> Result<
    PlanMap,
    ErrorView,
> {
    if m.contains_key(target) && m[target] != value {
        Err(
            ErrorView::DuplicateTarget {
                target: target,
                existing: m[target],
                incoming: value,
            },
        )
    } else {
        Ok(m.insert(target, value))
    }
}

/// A key of `entries_map(s)` is exactly a key of some entry.
pub proof fn lemma_entries_map_dom(s: Seq<(Vec<String>, Vec<String>)>, k: Seq<Seq<char>>)
    ensures
        entries_map(s).contains_key(k) <==> (exists|i: int|
            0 <= i < s.len() && (#[trigger] s[i].0.deep_view()) == k),
    decreases s.len(),
{
    if s.len() > 0 {
        lemma_entries_map_dom(s.drop_last(), k);
        if s.last().0.deep_view() == k {
            assert(s[s.len() - 1].0.deep_view() == k);
        } else if entries_map(s).contains_key(k) {
            let i = choose|i: int| 0 <= i < s.drop_last().len() && (#[trigger] s.drop_last()[i].0.deep_view()) == k;
            assert(s[i].0.deep_view() == k);
        } else if exists|i: int| 0 <= i < s.len() && (#[trigger] s[i].0.deep_view()) == k {
            let i = choose|i: int| 0 <= i < s.len() && (#[trigger] s[i].0.deep_view()) == k;
            assert(i < s.len() - 1);
            assert(s.drop_last()[i].0.deep_view() == k);
        }
    }
}

/// In a plan without repeated targets, the map sends each entry's target to
/// that entry's value.
pub proof fn lemma_entries_map_get(s: Seq<(Vec<String>, Vec<String>)>, i: int)
    requires
        entries_unique(s),
        0 <= i < s.len(),
    ensures
        entries_map(s).contains_key(s[i].0.deep_view()),
        entries_map(s)[s[i].0.deep_view()] == s[i].1.deep_view(),
    decreases s.len(),
{
    if i == s.len() - 1 {
    } else {
        assert(entries_unique(s.drop_last())) by {
            assert(forall|a: int, b: int|
                #![auto]
                0 <= a < b < s.drop_last().len() ==> s.drop_last()[a].0.deep_view() == s[a].0.deep_view()
                    && s.drop_last()[b].0.deep_view() == s[b].0.deep_view());
        }
        assert(s.drop_last()[i] == s[i]);
        lemma_entries_map_get(s.drop_last(), i);
        assert(s[i].0.deep_view() != s.last().0.deep_view());
    }
}

/// The stow plan: a mapping from target path to the link value the symlink
/// at that target must hold, one entry per file to be linked.  Its
/// invariant: no target is named twice across the whole plan.
#[derive(Debug)]
pub struct StowPlan {
    /// The recorded (target, link value) entries.
    pub entries: Vec<(Vec<String>, Vec<String>)>,
}

impl View for StowPlan {
    type V = Map<Seq<Seq<char>>, Seq<Seq<char>>>;

    open spec fn view(&self) -> Map<Seq<Seq<char>>, Seq<Seq<char>>> {
        entries_map(self.entries@)
    }
}

impl StowPlan {
    /// The plan's entries in the order they were recorded.
    pub open spec fn entry_seq(&self) -> Seq<(Vec<String>, Vec<String>)> {
        self.entries@
    }

    /// No target is named twice.
    pub open spec fn wf(&self) -> bool {
        entries_unique(self.entries@)
    }

    pub fn new() -> (r: StowPlan)
        ensures
            r@ == Map::<Seq<Seq<char>>, Seq<Seq<char>>>::empty(),
            r.wf(),
            r.entry_seq().len() == 0,
    {
        StowPlan { entries: Vec::new() }
    }

    pub fn len(&self) -> (n: usize)
        ensures
            n == self.entry_seq().len(),
    {
        self.entries.len()
    }

    /// One recorded (target, link value) entry.
    pub fn get(&self, i: usize) -> (e: &(Vec<String>, Vec<String>))
        requires
            i < self.entry_seq().len(),
        ensures
            *e == self.entry_seq()[i as int],
    {
        &self.entries[i]
    }

    /// The link value recorded for a target, if any.
    pub fn lookup(&self, target: &Vec<String>) -> (r: Option<&Vec<String>>)
        requires
            self.wf(),
        ensures
            match r {
                Some(v) => self@.contains_key(target.deep_view()) && v.deep_view()
                    == self@[target.deep_view()],
                None => !self@.contains_key(target.deep_view()),
            },
    {
        let mut i: usize = 0;
        while i < self.entries.len()
            invariant
                self.wf(),
                i <= self.entries@.len(),
                forall|j: int|
                    0 <= j < i ==> (#[trigger] self.entries@[j].0.deep_view())
                        != target.deep_view(),
            decreases self.entries@.len() - i,
        {
            if path_eq(&self.entries[i].0, target) {
                proof {
                    lemma_entries_map_get(self.entries@, i as int);
                }
                return Some(&self.entries[i].1);
            }
            i += 1;
        }
        proof {
            lemma_entries_map_dom(self.entries@, target.deep_view());
        }
        None
    }

    /// Insert-or-conflict, exactly as [`record_result`] says.
    pub fn record(&mut self, target: Vec<String>, value: Vec<String>) -> (r: Result<(), Error>)
        requires
            old(self).wf(),
        ensures
            final(self).wf(),
            match r {
                Ok(()) => record_result(old(self)@, target.deep_view(), value.deep_view())
                    == Ok::<PlanMap, ErrorView>(final(self)@),
                Err(e) => record_result(old(self)@, target.deep_view(), value.deep_view())
                    == Err::<PlanMap, ErrorView>(e@) && *final(self) == *old(self),
            },
    {
        let mut i: usize = 0;
        while i < self.entries.len()
            invariant
                self == old(self),
                self.wf(),
                i <= self.entries@.len(),
                forall|j: int|
                    0 <= j < i ==> (#[trigger] self.entries@[j].0.deep_view())
                        != target.deep_view(),
            decreases self.entries@.len() - i,
        {
            if path_eq(&self.entries[i].0, &target) {
                proof {
                    lemma_entries_map_get(self.entries@, i as int);
                }
                if path_eq(&self.entries[i].1, &value) {
                    proof {
                        assert(self@.insert(target.deep_view(), value.deep_view()) =~= self@);
                    }
                    return Ok(());
                } else {
                    let existing = clone_path(&self.entries[i].1);
                    return Err(
                        Error::DuplicateTarget { target, existing, incoming: value },
                    );
                }
            }
            i += 1;
        }
        proof {
            lemma_entries_map_dom(self.entries@, target.deep_view());
        }
        let ghost pre = self.entries@;
        let ghost tv = target.deep_view();
        let ghost vv = value.deep_view();
        self.entries.push((target, value));
        proof {
            assert(self.entries@.drop_last() =~= pre);
            assert(self.entries@.last().0.deep_view() == tv);
            assert(self.entries@.last().1.deep_view() == vv);
            assert(entries_map(self.entries@) == entries_map(pre).insert(tv, vv));
            assert forall|a: int, b: int|
                #![auto]
                0 <= a < b < self.entries@.len() implies self.entries@[a].0.deep_view()
                != self.entries@[b].0.deep_view() by {
                if b == self.entries@.len() - 1 {
                    lemma_entries_map_dom(pre, self.entries@[a].0.deep_view());
                }
            }
        }
        Ok(())
    }
}

} // verus!
