use vstd::prelude::*;
use vstd::string::StringExecFns;

use crate::error::Error;

verus! {

// A filesystem path is modelled as a vector of components; its mathematical
// shape is `deep_view()`, the sequence of the components' character sequences.

/// The `..` path component.
pub open spec fn dotdot() -> Seq<char> {
    seq!['.', '.']
}

/// A component as it comes out of a canonical path: a plain name, never
/// empty, never `.` or `..`, and free of separators.
pub open spec fn is_normal_seg(s: Seq<char>) -> bool {
    &&& s.len() > 0
    &&& s != seq!['.']
    &&& s != dotdot()
    &&& !s.contains('/')
}

pub open spec fn is_normal_path(p: Seq<Seq<char>>) -> bool {
    forall|i: int| 0 <= i < p.len() ==> is_normal_seg(#[trigger] p[i])
}

/// `n` repetitions of the `..` component.
pub open spec fn dots(n: nat) -> Seq<Seq<char>> {
    Seq::new(n, |i| dotdot())
}

/// Length of the longest common prefix of two component sequences.
pub open spec fn common_len(a: Seq<Seq<char>>, b: Seq<Seq<char>>) -> nat
    decreases a.len(),
{
    if a.len() == 0 || b.len() == 0 || a[0] != b[0] {
        0
    } else {
        1 + common_len(a.drop_first(), b.drop_first())
    }
}

pub proof fn lemma_common_len_le(a: Seq<Seq<char>>, b: Seq<Seq<char>>)
    ensures
        common_len(a, b) <= a.len(),
        common_len(a, b) <= b.len(),
    decreases a.len(),
{
    if !(a.len() == 0 || b.len() == 0 || a[0] != b[0]) {
        lemma_common_len_le(a.drop_first(), b.drop_first());
    }
}

/// The relative path that, written inside `base`, reaches `path`: one `..`
/// per component of `base` past their longest common prefix, followed by the
/// components of `path` past that prefix.
pub open spec fn rel_prefix(path: Seq<Seq<char>>, base: Seq<Seq<char>>) -> Seq<Seq<char>> {
    dots((base.len() - common_len(path, base)) as nat) + path.skip(common_len(path, base) as int)
}

/// The value of the symlink whose mirrored target sits at the relative
/// `suffix` below the target root: the symlink is resolved from its own
/// containing directory, `suffix.len() - 1` levels below the target root, so
/// that many `..` hops come first, then the root-to-root prefix `d`, then the
/// suffix itself.
pub open spec fn link_value_view(d: Seq<Seq<char>>, suffix: Seq<Seq<char>>) -> Seq<Seq<char>>
    recommends
        suffix.len() >= 1,
{
    dots((suffix.len() - 1) as nat) + d + suffix
}

/// A `..` component as a value.
pub fn dotdot_string() -> (s: String)
    ensures
        s@ == dotdot(),
{
    let s = String::from_str("..");
    proof {
        reveal_strlit("..");
        assert(s@ =~= dotdot());
    }
    s
}

/// Appending one component appends its character sequence to the view.
pub fn push_seg(r: &mut Vec<String>, s: String)
    ensures
        final(r).deep_view() == old(r).deep_view().push(s@),
        final(r)@.len() == old(r)@.len() + 1,
{
    r.push(s);
    proof {
        assert forall|j: int| 0 <= j < r.deep_view().len() implies r.deep_view()[j] == old(
            r,
        ).deep_view().push(s@)[j] by {
            if j < old(r)@.len() {
                assert(r@[j] == old(r)@[j]);
            } else {
                assert(r@[j] == s);
            }
        }
        assert(r.deep_view() =~= old(r).deep_view().push(s@));
    }
}

/// Appending one path to a list of paths appends its view to the list's view.
pub fn push_path(out: &mut Vec<Vec<String>>, t: Vec<String>)
    ensures
        final(out).deep_view() == old(out).deep_view().push(t.deep_view()),
        final(out)@.len() == old(out)@.len() + 1,
{
    out.push(t);
    proof {
        assert forall|j: int| 0 <= j < out.deep_view().len() implies out.deep_view()[j] == old(
            out,
        ).deep_view().push(t.deep_view())[j] by {
            if j < old(out)@.len() {
                assert(out@[j] == old(out)@[j]);
            } else {
                assert(out@[j] == t);
            }
        }
        assert(out.deep_view() =~= old(out).deep_view().push(t.deep_view()));
    }
}

/// Component-wise equality of two paths.
pub fn path_eq(a: &Vec<String>, b: &Vec<String>) -> (r: bool)
    ensures
        r == (a.deep_view() == b.deep_view()),
{
    if a.len() != b.len() {
        proof {
            assert(a.deep_view().len() != b.deep_view().len());
        }
        return false;
    }
    let mut i: usize = 0;
    while i < a.len()
        invariant
            i <= a.len(),
            a.len() == b.len(),
            forall|j: int| 0 <= j < i ==> a.deep_view()[j] == b.deep_view()[j],
        decreases a.len() - i,
    {
        if !(a[i] == b[i]) {
            proof {
                assert(a.deep_view()[i as int] == a@[i as int]@);
                assert(b.deep_view()[i as int] == b@[i as int]@);
            }
            return false;
        }
        i += 1;
    }
    proof {
        assert(a.deep_view() =~= b.deep_view());
    }
    true
}

/// A copy of a path, component by component.
pub fn clone_path(p: &Vec<String>) -> (r: Vec<String>)
    ensures
        r.deep_view() == p.deep_view(),
        r@.len() == p@.len(),
{
    let mut r: Vec<String> = Vec::new();
    let mut i: usize = 0;
    while i < p.len()
        invariant
            i <= p.len(),
            r@.len() == i,
            r.deep_view() =~= p.deep_view().take(i as int),
        decreases p.len() - i,
    {
        push_seg(&mut r, p[i].clone());
        proof {
            assert(r.deep_view() =~= p.deep_view().take(i + 1));
        }
        i += 1;
    }
    proof {
        assert(p.deep_view().take(p@.len() as int) =~= p.deep_view());
    }
    r
}

/// A copy of `p` with one more component at its end.
pub fn join_seg(p: &Vec<String>, seg: &String) -> (r: Vec<String>)
    ensures
        r.deep_view() == p.deep_view().push(seg@),
        r@.len() == p@.len() + 1,
{
    let mut r = clone_path(p);
    push_seg(&mut r, seg.clone());
    r
}

/// A copy of `t0` with the components of `p` from index `from` on appended:
/// the mirrored target path of the source path `p`.
pub fn append_from(t0: &Vec<String>, p: &Vec<String>, from: usize) -> (t: Vec<String>)
    requires
        from <= p@.len(),
    ensures
        t.deep_view() == t0.deep_view() + p.deep_view().skip(from as int),
{
    let mut t = clone_path(t0);
    let mut k = from;
    while k < p.len()
        invariant
            from <= k <= p@.len(),
            t.deep_view() =~= t0.deep_view() + p.deep_view().skip(from as int).take(k - from),
        decreases p@.len() - k,
    {
        push_seg(&mut t, p[k].clone());
        proof {
            assert(t.deep_view() =~= t0.deep_view() + p.deep_view().skip(from as int).take(
                k + 1 - from,
            ));
        }
        k += 1;
    }
    proof {
        assert(p.deep_view().skip(from as int).take(p@.len() - from) =~= p.deep_view().skip(
            from as int,
        ));
    }
    t
}

/// Relies on `pathdiff::diff_paths`: for two paths made of normal components
/// it returns exactly the relative path built from one `..` per component of
/// `base` past the longest common prefix, followed by the remaining
/// components of `path`, and never `None` (its `None` cases need a `..`
/// component in `base` or an absolute/relative mismatch).
#[verifier::external_body]
fn diff_segments(path: &Vec<String>, base: &Vec<String>) -> (r: Option<Vec<String>>)
    requires
        is_normal_path(path.deep_view()),
        is_normal_path(base.deep_view()),
    ensures
        r is Some,
        r matches Some(d) ==> d.deep_view() == rel_prefix(path.deep_view(), base.deep_view()),
{
    let p: std::path::PathBuf = path.iter().collect();
    let b: std::path::PathBuf = base.iter().collect();
    pathdiff::diff_paths(&p, &b).map(|d| {
        d.components().map(|c| c.as_os_str().to_string_lossy().into_owned()).collect()
    })
}

/// The per-package path arithmetic: the package root as given (for stripping
/// source prefixes) and the relative path from the canonical target root to
/// the canonical package root.
pub struct SourceTargetDiff {
    /// The package root, as given on this invocation.
    pub source_root: Vec<String>,
    /// Relative path from the canonical target root to the canonical package
    /// root; immutable for the package's entire traversal.
    pub d: Vec<String>,
}

impl SourceTargetDiff {
    /// Builds the resolver for one package from the two canonical roots.
    pub fn new(
        source_root: Vec<String>,
        canon_source_root: &Vec<String>,
        canon_target_root: &Vec<String>,
    ) -> (r: Result<SourceTargetDiff, Error>)
        requires
            is_normal_path(canon_source_root.deep_view()),
            is_normal_path(canon_target_root.deep_view()),
        ensures
            r matches Ok(sd) && sd.source_root == source_root && sd.d.deep_view()
                == rel_prefix(canon_source_root.deep_view(), canon_target_root.deep_view()),
    {
        match diff_segments(canon_source_root, canon_target_root) {
            Some(d) => Ok(SourceTargetDiff { source_root, d }),
            None => Err(Error::NoCommonRoot),
        }
    }

    /// Strips the package root from `source` and returns the link value for
    /// the mirrored target entry: `..` once per directory level of the entry
    /// below the target root, then the root-to-root prefix, then the suffix.
    pub fn conv_source_rel(&self, source: &Vec<String>) -> (r: Vec<String>)
        requires
            self.source_root.deep_view().is_prefix_of(source.deep_view()),
            self.source_root@.len() < source@.len(),
        ensures
            r.deep_view() == link_value_view(
                self.d.deep_view(),
                source.deep_view().skip(self.source_root@.len() as int),
            ),
    {
        let rootlen = self.source_root.len();
        let ghost suffix = source.deep_view().skip(rootlen as int);
        let depth = source.len() - rootlen - 1;
        let mut r: Vec<String> = Vec::new();
        let mut i: usize = 0;
        while i < depth
            invariant
                i <= depth,
                r.deep_view() =~= dots(i as nat),
            decreases depth - i,
        {
            push_seg(&mut r, dotdot_string());
            proof {
                assert(r.deep_view() =~= dots((i + 1) as nat));
            }
            i += 1;
        }
        let mut j: usize = 0;
        while j < self.d.len()
            invariant
                j <= self.d@.len(),
                r.deep_view() =~= dots(depth as nat) + self.d.deep_view().take(j as int),
            decreases self.d@.len() - j,
        {
            push_seg(&mut r, self.d[j].clone());
            proof {
                assert(r.deep_view() =~= dots(depth as nat) + self.d.deep_view().take(j + 1));
            }
            j += 1;
        }
        proof {
            assert(self.d.deep_view().take(self.d@.len() as int) =~= self.d.deep_view());
        }
        let mut k: usize = rootlen;
        while k < source.len()
            invariant
                rootlen <= k <= source@.len(),
                rootlen < source@.len(),
                rootlen == self.source_root@.len(),
                suffix == source.deep_view().skip(rootlen as int),
                depth == source@.len() - rootlen - 1,
                r.deep_view() =~= dots(depth as nat) + self.d.deep_view() + suffix.take(k - rootlen),
            decreases source@.len() - k,
        {
            push_seg(&mut r, source[k].clone());
            proof {
                assert(r.deep_view() =~= dots(depth as nat) + self.d.deep_view() + suffix.take(
                    k + 1 - rootlen,
                ));
            }
            k += 1;
        }
        proof {
            assert(suffix.take(source@.len() - rootlen) =~= suffix);
            assert(r.deep_view() =~= link_value_view(self.d.deep_view(), suffix));
        }
        r
    }
}

} // verus!
