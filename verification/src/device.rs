//! Handles to discovered devices and their path-derived relationships.

use vstd::prelude::*;

use crate::path::CanonicalPath;
use crate::path::strict_ancestor;

verus! {

/// Handle for one discovered device.
///
/// A device is identified by the canonical path of its node in the device
/// tree; handles are immutable and compare by that path. Relationships
/// (parent, descendants) are never stored: they are computed on demand
/// against a caller-supplied collection, so the same handle can be
/// related against the full scan result or any subset of it.
#[derive(Debug)]
pub struct Device {
    /// Canonical path of the device's node in the device tree.
    pub sysfs_path: CanonicalPath,
}

/// The canonical paths of a collection of devices, in collection order.
pub open spec fn device_views(devices: Seq<Device>) -> Seq<Seq<Seq<char>>> {
    devices.map_values(|d: Device| d@)
}

/// The paths of `devices` that `target` is a strict, segment-aligned
/// ancestor of, in collection order.
pub open spec fn descendant_views(target: Seq<Seq<char>>, devices: Seq<Device>) -> Seq<
    Seq<Seq<char>>,
> {
    device_views(devices).filter(|p: Seq<Seq<char>>| strict_ancestor(target, p))
}

/// `p` is the path of a direct child of `target` within `devices`: a
/// strict, segment-aligned descendant with no device of the collection
/// strictly between the two.
pub open spec fn direct_child_in(
    target: Seq<Seq<char>>,
    p: Seq<Seq<char>>,
    devices: Seq<Device>,
) -> bool {
    &&& strict_ancestor(target, p)
    &&& forall|j: int|
        0 <= j < devices.len() ==> !(strict_ancestor(target, #[trigger] devices[j]@)
            && strict_ancestor(devices[j]@, p))
}

/// The paths of those of `candidates` that are direct children of
/// `target`, judged against the whole collection `devices`, in order.
pub open spec fn child_views_within(
    target: Seq<Seq<char>>,
    candidates: Seq<Device>,
    devices: Seq<Device>,
) -> Seq<Seq<Seq<char>>>
    decreases candidates.len(),
{
    if candidates.len() == 0 {
        Seq::empty()
    } else {
        child_views_within(target, candidates.drop_last(), devices) + if direct_child_in(
            target,
            candidates.last()@,
            devices,
        ) {
            seq![candidates.last()@]
        } else {
            Seq::empty()
        }
    }
}

/// The paths of the direct children of `target` within a collection, in
/// collection order.
pub open spec fn child_views(target: Seq<Seq<char>>, devices: Seq<Device>) -> Seq<Seq<Seq<char>>> {
    child_views_within(target, devices, devices)
}

impl View for Device {
    type V = Seq<Seq<char>>;

    open spec fn view(&self) -> Seq<Seq<char>> {
        self.sysfs_path@
    }
}

impl From<CanonicalPath> for Device {
    fn from(sysfs_path: CanonicalPath) -> (r: Self) {
        Device { sysfs_path }
    }
}

impl vstd::std_specs::convert::FromSpecImpl<CanonicalPath> for Device {
    open spec fn obeys_from_spec() -> bool {
        true
    }

    open spec fn from_spec(sysfs_path: CanonicalPath) -> Device {
        Device { sysfs_path }
    }
}

impl Clone for Device {
    fn clone(&self) -> (r: Self)
        ensures
            r@ == self@,
    {
        Device { sysfs_path: self.sysfs_path.clone() }
    }
}

impl PartialEq for Device {
    fn eq(&self, other: &Device) -> (r: bool) {
        self.sysfs_path == other.sysfs_path
    }
}

impl vstd::std_specs::cmp::PartialEqSpecImpl for Device {
    open spec fn obeys_eq_spec() -> bool {
        true
    }

    open spec fn eq_spec(&self, other: &Device) -> bool {
        self@ == other@
    }
}

impl Eq for Device {

}

impl Device {
    /// The canonical path of this device's node in the device tree.
    pub fn sysfs_path(&self) -> (r: &CanonicalPath)
        ensures
            r@ == self@,
    {
        &self.sysfs_path
    }

    /// Find the parent of this device within a collection of devices: the
    /// deepest device of `devices` whose path is a strict, segment-aligned
    /// prefix of this device's path. Returns `None` when the collection
    /// holds no such device (this device is a root there).
    pub fn parent<'a>(&self, devices: &'a Vec<Device>) -> (r: Option<&'a Device>)
        ensures
            match r {
                Some(p) => {
                    &&& devices@.contains(*p)
                    &&& strict_ancestor(p@, self@)
                    &&& forall|i: int|
                        0 <= i < devices@.len() && strict_ancestor(#[trigger] devices@[i]@, self@)
                            ==> devices@[i]@.len() <= p@.len()
                },
                None => forall|i: int|
                    0 <= i < devices@.len() ==> !strict_ancestor(#[trigger] devices@[i]@, self@),
            },
    {
        let mut best: Option<&'a Device> = None;
        let mut i: usize = 0;
        while i < devices.len()
            invariant
                i <= devices@.len(),
                match best {
                    Some(p) => {
                        &&& devices@.contains(*p)
                        &&& strict_ancestor(p@, self@)
                        &&& forall|j: int|
                            0 <= j < i && strict_ancestor(#[trigger] devices@[j]@, self@)
                                ==> devices@[j]@.len() <= p@.len()
                    },
                    None => forall|j: int|
                        0 <= j < i ==> !strict_ancestor(#[trigger] devices@[j]@, self@),
                },
            decreases devices@.len() - i,
        {
            let candidate = &devices[i];
            if candidate.sysfs_path.is_ancestor_of(&self.sysfs_path) {
                let replace = match best {
                    None => true,
                    Some(p) => candidate.sysfs_path.depth() >= p.sysfs_path.depth(),
                };
                if replace {
                    best = Some(candidate);
                }
            }
            i += 1;
        }
        best
    }

    /// The descendants of this device within a collection of devices:
    /// every device of `devices` whose path has this device's path as a
    /// strict, segment-aligned prefix, at any depth, in the order the
    /// collection presents them.
    pub fn descendants(&self, devices: &Vec<Device>) -> (r: Vec<Device>)
        ensures
            device_views(r@) == descendant_views(self@, devices@),
    {
        let mut out: Vec<Device> = Vec::new();
        let mut i: usize = 0;
        while i < devices.len()
            invariant
                i <= devices@.len(),
                device_views(out@) == descendant_views(self@, devices@.take(i as int)),
            decreases devices@.len() - i,
        {
            let candidate = &devices[i];
            proof {
                lemma_device_views_take_push(devices@, i as int);
                lemma_filter_push(
                    device_views(devices@.take(i as int)),
                    devices@[i as int]@,
                    |p: Seq<Seq<char>>| strict_ancestor(self@, p),
                );
            }
            if self.sysfs_path.is_ancestor_of(&candidate.sysfs_path) {
                out.push(candidate.clone());
                proof {
                    assert(device_views(out@) =~= descendant_views(
                        self@,
                        devices@.take(i as int + 1),
                    ));
                }
            } else {
                proof {
                    assert(device_views(out@) =~= descendant_views(
                        self@,
                        devices@.take(i as int + 1),
                    ));
                }
            }
            i += 1;
        }
        proof {
            assert(devices@.take(devices@.len() as int) =~= devices@);
        }
        out
    }
    /// The direct children of this device within a collection of
    /// devices: its descendants there with no other device of the
    /// collection strictly between, in the order the collection presents
    /// them. Unlike [`Device::descendants`], which crosses every depth,
    /// this keeps only the nearest level actually present.
    pub fn direct_children(&self, devices: &Vec<Device>) -> (r: Vec<Device>)
        ensures
            device_views(r@) == child_views(self@, devices@),
    {
        let mut out: Vec<Device> = Vec::new();
        let mut i: usize = 0;
        proof {
            assert(devices@.take(0) =~= Seq::<Device>::empty());
        }
        while i < devices.len()
            invariant
                i <= devices@.len(),
                device_views(out@) == child_views_within(self@, devices@.take(i as int), devices@),
            decreases devices@.len() - i,
        {
            let candidate = &devices[i];
            proof {
                lemma_child_views_take_step(self@, devices@, i as int);
            }
            if self.sysfs_path.is_ancestor_of(&candidate.sysfs_path) && !has_intermediate(
                &self.sysfs_path,
                &candidate.sysfs_path,
                devices,
            ) {
                out.push(candidate.clone());
                proof {
                    assert(direct_child_in(self@, devices@[i as int]@, devices@));
                    assert(device_views(out@) =~= child_views_within(
                        self@,
                        devices@.take(i as int + 1),
                        devices@,
                    ));
                }
            } else {
                proof {
                    assert(!direct_child_in(self@, devices@[i as int]@, devices@));
                    assert(device_views(out@) =~= child_views_within(
                        self@,
                        devices@.take(i as int + 1),
                        devices@,
                    ));
                }
            }
            i += 1;
        }
        proof {
            assert(devices@.take(devices@.len() as int) =~= devices@);
        }
        out
    }
}

/// Whether some device of the collection lies strictly between `target`
/// and `candidate` in the path hierarchy.
fn has_intermediate(
    target: &CanonicalPath,
    candidate: &CanonicalPath,
    devices: &Vec<Device>,
) -> (r: bool)
    ensures
        r == exists|j: int|
            0 <= j < devices@.len() && strict_ancestor(target@, #[trigger] devices@[j]@)
                && strict_ancestor(devices@[j]@, candidate@),
{
    let mut j: usize = 0;
    while j < devices.len()
        invariant
            j <= devices@.len(),
            forall|k: int|
                0 <= k < j ==> !(strict_ancestor(target@, #[trigger] devices@[k]@)
                    && strict_ancestor(devices@[k]@, candidate@)),
        decreases devices@.len() - j,
    {
        let between = &devices[j];
        if target.is_ancestor_of(&between.sysfs_path) && between.sysfs_path.is_ancestor_of(
            candidate,
        ) {
            proof {
                assert(strict_ancestor(target@, devices@[j as int]@) && strict_ancestor(
                    devices@[j as int]@,
                    candidate@,
                ));
            }
            return true;
        }
        j += 1;
    }
    false
}

/// Taking one more candidate appends exactly its contribution to the
/// direct-child paths.
proof fn lemma_child_views_take_step(target: Seq<Seq<char>>, devices: Seq<Device>, i: int)
    requires
        0 <= i < devices.len(),
    ensures
        child_views_within(target, devices.take(i + 1), devices) == child_views_within(
            target,
            devices.take(i),
            devices,
        ) + if direct_child_in(target, devices[i]@, devices) {
            seq![devices[i]@]
        } else {
            Seq::<Seq<Seq<char>>>::empty()
        },
{
    assert(devices.take(i + 1).drop_last() =~= devices.take(i));
    assert(devices.take(i + 1).last() == devices[i]);
}

/// Taking one more device appends exactly its path to the collection's
/// path sequence.
proof fn lemma_device_views_take_push(devices: Seq<Device>, i: int)
    requires
        0 <= i < devices.len(),
    ensures
        device_views(devices.take(i + 1)) == device_views(devices.take(i)).push(devices[i]@),
{
    assert(device_views(devices.take(i + 1)) =~= device_views(devices.take(i)).push(devices[i]@));
}

/// Filtering a sequence extended by one element keeps the filtered prefix
/// and appends the new element exactly when it satisfies the predicate.
proof fn lemma_filter_push<A>(s: Seq<A>, x: A, pred: spec_fn(A) -> bool)
    ensures
        s.push(x).filter(pred) == if pred(x) {
            s.filter(pred).push(x)
        } else {
            s.filter(pred)
        },
{
    reveal(Seq::filter);
    assert(s.push(x).drop_last() =~= s);
    assert(s.push(x).last() == x);
}

/// Descendant / ancestor duality: within a collection, a path `b` is among
/// the descendants of a device at path `a` exactly when `a` is a strict,
/// segment-aligned ancestor of `b` and `b` belongs to the collection.
pub proof fn lemma_descendant_ancestor_duality(
    a: Seq<Seq<char>>,
    b: Seq<Seq<char>>,
    devices: Seq<Device>,
)
    ensures
        descendant_views(a, devices).contains(b) <==> device_views(devices).contains(b)
            && strict_ancestor(a, b),
    decreases devices.len(),
{
    reveal(Seq::filter);
    if devices.len() > 0 {
        lemma_descendant_ancestor_duality(a, b, devices.drop_last());
        assert(device_views(devices).drop_last() =~= device_views(devices.drop_last()));
        assert(device_views(devices).last() == devices.last()@);
        if device_views(devices).contains(b) && b != devices.last()@ {
            let k = choose|k: int|
                0 <= k < device_views(devices).len() && device_views(devices)[k] == b;
            assert(device_views(devices.drop_last())[k] == b);
            assert(device_views(devices.drop_last()).contains(b));
        }
        if descendant_views(a, devices.drop_last()).contains(b) {
            let k = choose|k: int|
                0 <= k < descendant_views(a, devices.drop_last()).len() && descendant_views(
                    a,
                    devices.drop_last(),
                )[k] == b;
            if strict_ancestor(a, devices.last()@) {
                assert(descendant_views(a, devices)[k] == b);
            } else {
                assert(descendant_views(a, devices)[k] == b);
            }
        }
        if device_views(devices.drop_last()).contains(b) {
            let k = choose|k: int|
                0 <= k < device_views(devices.drop_last()).len() && device_views(
                    devices.drop_last(),
                )[k] == b;
            assert(device_views(devices)[k] == b);
        }
    }
}

} // verus!
