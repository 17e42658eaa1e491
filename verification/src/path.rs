//! Canonical device paths and segment-aligned path containment.

use vstd::prelude::*;

verus! {

/// The canonical path of one device-tree node, held as its path segments.
///
/// Canonicalization itself (following symlinks, resolving `..`) is a
/// capability of the host filesystem: a `CanonicalPath` records the
/// segments of a path the host has already fully resolved, relative to
/// the filesystem root. Two entries that resolve to the same canonical
/// path denote the same device, so equality is by the full segment list.
#[derive(Debug)]
pub struct CanonicalPath {
    /// The path's segments, in order from the root.
    pub segments: Vec<String>,
}

/// `anc` is a strict, segment-aligned prefix of `desc`: `desc` is strictly
/// longer and agrees with `anc` on every segment of `anc`. Matching whole
/// segments (never character stems within a segment) is what keeps a node
/// named `pci1` from counting as an ancestor of a sibling named `pci10`.
pub open spec fn strict_ancestor(anc: Seq<Seq<char>>, desc: Seq<Seq<char>>) -> bool {
    &&& anc.len() < desc.len()
    &&& forall|i: int| 0 <= i < anc.len() ==> anc[i] == desc[i]
}

/// Two equally deep, segment-aligned strict ancestors of one path are
/// the same path: candidate parents can tie in depth only by being path
/// equal, so whichever of them a query picks, the parent's path is
/// unique.
pub proof fn lemma_equal_depth_ancestors_agree(
    first: Seq<Seq<char>>,
    second: Seq<Seq<char>>,
    descendant: Seq<Seq<char>>,
)
    requires
        strict_ancestor(first, descendant),
        strict_ancestor(second, descendant),
        first.len() == second.len(),
    ensures
        first == second,
{
    assert(first =~= second);
}

impl View for CanonicalPath {
    type V = Seq<Seq<char>>;

    open spec fn view(&self) -> Seq<Seq<char>> {
        self.segments@.map_values(|s: String| s@)
    }
}

impl CanonicalPath {
    /// Wrap an already-canonicalized path, given as its segments.
    pub fn new(segments: Vec<String>) -> (r: CanonicalPath)
        ensures
            r@ == segments@.map_values(|s: String| s@),
    {
        CanonicalPath { segments }
    }

    /// The path's segments, in order from the root.
    pub fn segments(&self) -> (r: &Vec<String>)
        ensures
            r@.map_values(|s: String| s@) == self@,
    {
        &self.segments
    }

    /// The number of path segments: the node's depth in the device tree.
    pub fn depth(&self) -> (n: usize)
        ensures
            n == self@.len(),
    {
        self.segments.len()
    }

    /// Whether `self` is a strict, segment-aligned ancestor of `other`.
    pub fn is_ancestor_of(&self, other: &CanonicalPath) -> (r: bool)
        ensures
            r == strict_ancestor(self@, other@),
    {
        if self.segments.len() >= other.segments.len() {
            return false;
        }
        let mut i: usize = 0;
        while i < self.segments.len()
            invariant
                i <= self.segments.len(),
                self.segments.len() < other.segments.len(),
                forall|j: int| 0 <= j < i ==> self@[j] == other@[j],
            decreases self.segments.len() - i,
        {
            let same = self.segments[i] == other.segments[i];
            if !same {
                proof {
                    assert(self@[i as int] != other@[i as int]);
                }
                return false;
            }
            i += 1;
        }
        true
    }
}

impl Clone for CanonicalPath {
    fn clone(&self) -> (r: Self)
        ensures
            r@ == self@,
    {
        let segments = self.segments.clone();
        proof {
            assert(segments@.map_values(|s: String| s@) =~= self.segments@.map_values(
                |s: String| s@,
            ));
        }
        CanonicalPath { segments }
    }
}

impl PartialEq for CanonicalPath {
    fn eq(&self, other: &CanonicalPath) -> (r: bool) {
        if self.segments.len() != other.segments.len() {
            proof {
                assert(self@.len() != other@.len());
            }
            return false;
        }
        let mut i: usize = 0;
        while i < self.segments.len()
            invariant
                i <= self.segments.len(),
                self.segments.len() == other.segments.len(),
                forall|j: int| 0 <= j < i ==> self@[j] == other@[j],
            decreases self.segments.len() - i,
        {
            let same = self.segments[i] == other.segments[i];
            if !same {
                proof {
                    assert(self@[i as int] != other@[i as int]);
                }
                return false;
            }
            i += 1;
        }
        proof {
            assert(self@ =~= other@);
        }
        true
    }
}

impl vstd::std_specs::cmp::PartialEqSpecImpl for CanonicalPath {
    open spec fn obeys_eq_spec() -> bool {
        true
    }

    open spec fn eq_spec(&self, other: &CanonicalPath) -> bool {
        self@ == other@
    }
}

impl Eq for CanonicalPath {

}

} // verus!
