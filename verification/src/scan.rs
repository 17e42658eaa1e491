//! Merging the three device namespaces into one deduplicated collection.
//!
//! The host filesystem walks the bus, class and block namespace roots and
//! records, as plain data, what it found: for each directory either its
//! entries or the error that listing it produced, and for each entry the
//! canonical path its symlink resolved to or the error that resolving it
//! produced. The scanner consumes that record; it decides which entries
//! count, deduplicates by canonical path, and propagates the first error
//! in traversal order (bus, then class, then block).

use vstd::prelude::*;

use crate::device::Device;
use crate::device::device_views;
use crate::path::CanonicalPath;

verus! {

/// Why a scan failed: the kind of the first filesystem failure met.
#[derive(Clone, Copy, PartialEq, Eq, Debug)]
pub enum ScanError {
    /// A namespace root or one of its directories could not be listed.
    NotFound,
    /// The filesystem refused access to a directory or link.
    PermissionDenied,
    /// A symlink's target could not be read.
    UnresolvedLink,
    /// Canonicalizing a resolved target failed (broken target, loop, ...).
    InvalidCanonicalization,
    /// Any other filesystem failure.
    Other,
}

/// What one directory entry resolved to: the canonical path of its
/// symlink's target, or the error met while reading or canonicalizing it.
pub type EntryResolution = Result<CanonicalPath, ScanError>;

/// One subsystem under the bus namespace root: the outcome of listing its
/// `devices` directory, every entry resolved relative to that directory.
pub struct BusSubsystem {
    /// The resolved entries of the subsystem's `devices` directory, or
    /// the error met while listing it.
    pub entries: Result<Vec<EntryResolution>, ScanError>,
}

/// One directory entry under a class directory.
pub enum ClassEntry {
    /// An entry that is not a symlink: class directories may hold other
    /// artifacts, and these are silently skipped.
    NotSymlink,
    /// A symlink entry, resolved relative to its class directory.
    Link(EntryResolution),
}

/// One class directory under the class namespace root.
pub struct ClassDir {
    /// The directory's entries, or the error met while listing it.
    pub entries: Result<Vec<ClassEntry>, ScanError>,
}

/// The recorded outcome of walking the three namespace roots.
pub struct ScanInput {
    /// The subsystems under the bus root, or the error listing that root.
    pub bus: Result<Vec<BusSubsystem>, ScanError>,
    /// The class directories under the class root, or the error listing it.
    pub class: Result<Vec<ClassDir>, ScanError>,
    /// The entries directly under the block root, each resolved relative
    /// to the block root itself, or the error listing that root.
    pub block: Result<Vec<EntryResolution>, ScanError>,
}

/// The error of one resolved entry, if it failed.
pub open spec fn resolution_error(r: EntryResolution) -> Option<ScanError> {
    match r {
        Ok(_) => None,
        Err(e) => Some(e),
    }
}

/// The first error among resolved entries, in order.
pub open spec fn entry_error(entries: Seq<EntryResolution>) -> Option<ScanError>
    decreases entries.len(),
{
    if entries.len() == 0 {
        None
    } else if resolution_error(entries.first()) is Some {
        resolution_error(entries.first())
    } else {
        entry_error(entries.drop_first())
    }
}

/// The canonical paths of the entries that resolved, in order.
pub open spec fn entry_paths(entries: Seq<EntryResolution>) -> Seq<Seq<Seq<char>>>
    decreases entries.len(),
{
    if entries.len() == 0 {
        Seq::empty()
    } else {
        entry_paths(entries.drop_last()) + match entries.last() {
            Ok(p) => seq![p@],
            Err(_) => Seq::empty(),
        }
    }
}

/// The first error met while scanning one bus subsystem.
pub open spec fn subsystem_error(s: BusSubsystem) -> Option<ScanError> {
    match s.entries {
        Ok(entries) => entry_error(entries@),
        Err(e) => Some(e),
    }
}

/// The canonical paths one bus subsystem contributes.
pub open spec fn subsystem_paths(s: BusSubsystem) -> Seq<Seq<Seq<char>>> {
    match s.entries {
        Ok(entries) => entry_paths(entries@),
        Err(_) => Seq::empty(),
    }
}

/// The first error among the bus subsystems, in order.
pub open spec fn bus_error(subsystems: Seq<BusSubsystem>) -> Option<ScanError>
    decreases subsystems.len(),
{
    if subsystems.len() == 0 {
        None
    } else if subsystem_error(subsystems.first()) is Some {
        subsystem_error(subsystems.first())
    } else {
        bus_error(subsystems.drop_first())
    }
}

/// The canonical paths the bus subsystems contribute, in order.
pub open spec fn bus_paths(subsystems: Seq<BusSubsystem>) -> Seq<Seq<Seq<char>>>
    decreases subsystems.len(),
{
    if subsystems.len() == 0 {
        Seq::empty()
    } else {
        bus_paths(subsystems.drop_last()) + subsystem_paths(subsystems.last())
    }
}

/// The error of one class entry, if it is a symlink that failed to
/// resolve; entries that are not symlinks never contribute an error.
pub open spec fn class_entry_error(e: ClassEntry) -> Option<ScanError> {
    match e {
        ClassEntry::NotSymlink => None,
        ClassEntry::Link(r) => resolution_error(r),
    }
}

/// The first error among the entries of one class directory, in order.
pub open spec fn class_entry_list_error(entries: Seq<ClassEntry>) -> Option<ScanError>
    decreases entries.len(),
{
    if entries.len() == 0 {
        None
    } else if class_entry_error(entries.first()) is Some {
        class_entry_error(entries.first())
    } else {
        class_entry_list_error(entries.drop_first())
    }
}

/// The canonical paths of the symlink entries that resolved, in order.
pub open spec fn class_entry_list_paths(entries: Seq<ClassEntry>) -> Seq<Seq<Seq<char>>>
    decreases entries.len(),
{
    if entries.len() == 0 {
        Seq::empty()
    } else {
        class_entry_list_paths(entries.drop_last()) + match entries.last() {
            ClassEntry::NotSymlink => Seq::empty(),
            ClassEntry::Link(r) => match r {
                Ok(p) => seq![p@],
                Err(_) => Seq::empty(),
            },
        }
    }
}

/// The first error met while scanning one class directory.
pub open spec fn class_dir_error(d: ClassDir) -> Option<ScanError> {
    match d.entries {
        Ok(entries) => class_entry_list_error(entries@),
        Err(e) => Some(e),
    }
}

/// The canonical paths one class directory contributes.
pub open spec fn class_dir_paths(d: ClassDir) -> Seq<Seq<Seq<char>>> {
    match d.entries {
        Ok(entries) => class_entry_list_paths(entries@),
        Err(_) => Seq::empty(),
    }
}

/// The first error among the class directories, in order.
pub open spec fn class_error(dirs: Seq<ClassDir>) -> Option<ScanError>
    decreases dirs.len(),
{
    if dirs.len() == 0 {
        None
    } else if class_dir_error(dirs.first()) is Some {
        class_dir_error(dirs.first())
    } else {
        class_error(dirs.drop_first())
    }
}

/// The canonical paths the class directories contribute, in order.
pub open spec fn class_paths(dirs: Seq<ClassDir>) -> Seq<Seq<Seq<char>>>
    decreases dirs.len(),
{
    if dirs.len() == 0 {
        Seq::empty()
    } else {
        class_paths(dirs.drop_last()) + class_dir_paths(dirs.last())
    }
}

/// The first error of the bus namespace as a whole.
pub open spec fn bus_ns_error(bus: Result<Vec<BusSubsystem>, ScanError>) -> Option<ScanError> {
    match bus {
        Ok(subsystems) => bus_error(subsystems@),
        Err(e) => Some(e),
    }
}

/// The canonical paths the bus namespace contributes.
pub open spec fn bus_ns_paths(bus: Result<Vec<BusSubsystem>, ScanError>) -> Seq<Seq<Seq<char>>> {
    match bus {
        Ok(subsystems) => bus_paths(subsystems@),
        Err(_) => Seq::empty(),
    }
}

/// The first error of the class namespace as a whole.
pub open spec fn class_ns_error(class: Result<Vec<ClassDir>, ScanError>) -> Option<ScanError> {
    match class {
        Ok(dirs) => class_error(dirs@),
        Err(e) => Some(e),
    }
}

/// The canonical paths the class namespace contributes.
pub open spec fn class_ns_paths(class: Result<Vec<ClassDir>, ScanError>) -> Seq<Seq<Seq<char>>> {
    match class {
        Ok(dirs) => class_paths(dirs@),
        Err(_) => Seq::empty(),
    }
}

/// The first error of the block namespace as a whole.
pub open spec fn block_ns_error(block: Result<Vec<EntryResolution>, ScanError>) -> Option<
    ScanError,
> {
    match block {
        Ok(entries) => entry_error(entries@),
        Err(e) => Some(e),
    }
}

/// The canonical paths the block namespace contributes.
pub open spec fn block_ns_paths(block: Result<Vec<EntryResolution>, ScanError>) -> Seq<
    Seq<Seq<char>>,
> {
    match block {
        Ok(entries) => entry_paths(entries@),
        Err(_) => Seq::empty(),
    }
}

/// The first error of the whole scan, in traversal order: every bus
/// subsystem, then every class directory, then the block root.
pub open spec fn scan_error(input: ScanInput) -> Option<ScanError> {
    if bus_ns_error(input.bus) is Some {
        bus_ns_error(input.bus)
    } else if class_ns_error(input.class) is Some {
        class_ns_error(input.class)
    } else {
        block_ns_error(input.block)
    }
}

/// Every canonical path the three namespaces contribute, in traversal
/// order, duplicates included.
pub open spec fn scan_paths(input: ScanInput) -> Seq<Seq<Seq<char>>> {
    bus_ns_paths(input.bus) + class_ns_paths(input.class) + block_ns_paths(input.block)
}

/// Device scanner: accumulates the canonical paths discovered so far,
/// keyed by path so that the same device reached through several
/// namespaces is held exactly once.
#[derive(Clone, Debug, PartialEq, Eq)]
pub struct Scanner {
    /// The distinct canonical paths discovered so far, in first-discovery
    /// order.
    device_paths: Vec<CanonicalPath>,
}

impl Scanner {
    /// The canonical paths accumulated so far, in first-discovery order.
    pub closed spec fn paths(self) -> Seq<Seq<Seq<char>>> {
        self.device_paths@.map_values(|p: CanonicalPath| p@)
    }

    /// The accumulator's invariant: no canonical path is held twice.
    pub closed spec fn wf(self) -> bool {
        self.paths().no_duplicates()
    }
}

impl Default for Scanner {
    fn default() -> (r: Self)
        ensures
            r.paths() == Seq::<Seq<Seq<char>>>::empty(),
            r.wf(),
    {
        let scanner = Scanner { device_paths: Vec::new() };
        proof {
            assert(scanner.paths() =~= Seq::<Seq<Seq<char>>>::empty());
        }
        scanner
    }
}

impl Scanner {
    /// Whether a canonical path was already discovered.
    fn contains_path(&self, path: &CanonicalPath) -> (r: bool)
        ensures
            r == self.paths().contains(path@),
    {
        let mut i: usize = 0;
        while i < self.device_paths.len()
            invariant
                i <= self.device_paths@.len(),
                forall|j: int| 0 <= j < i ==> self.paths()[j] != path@,
            decreases self.device_paths@.len() - i,
        {
            let same = self.device_paths[i] == *path;
            if same {
                proof {
                    assert(self.paths()[i as int] == path@);
                }
                return true;
            }
            i += 1;
        }
        false
    }

    /// Record one canonical path, keeping at most one copy of it.
    fn insert(&mut self, path: CanonicalPath)
        requires
            old(self).wf(),
        ensures
            final(self).wf(),
            final(self).paths().to_set() == old(self).paths().to_set().insert(path@),
    {
        let present = self.contains_path(&path);
        if present {
            proof {
                assert(self.paths().to_set() =~= self.paths().to_set().insert(path@));
            }
        } else {
            proof {
                assert(forall|j: int|
                    0 <= j < self.paths().len() ==> #[trigger] self.paths()[j] != path@);
            }
            let ghost pre = self.paths();
            self.device_paths.push(path);
            proof {
                assert(self.paths() =~= pre.push(path@));
                pre.lemma_push_to_set_commute(path@);
                assert(self.paths().to_set() =~= pre.to_set().insert(path@));
            }
        }
    }

    /// Record every entry of one resolved listing, stopping at the first
    /// entry whose resolution failed.
    fn scan_entries(&mut self, entries: &Vec<EntryResolution>) -> (r: Result<(), ScanError>)
        requires
            old(self).wf(),
        ensures
            final(self).wf(),
            match r {
                Ok(()) => {
                    &&& entry_error(entries@) is None
                    &&& final(self).paths().to_set() == old(self).paths().to_set() + entry_paths(
                        entries@,
                    ).to_set()
                },
                Err(e) => entry_error(entries@) == Some(e),
            },
    {
        let mut i: usize = 0;
        proof {
            assert(entries@.skip(0) =~= entries@);
            assert(entries@.take(0) =~= Seq::<EntryResolution>::empty());
        }
        while i < entries.len()
            invariant
                i <= entries@.len(),
                self.wf(),
                entry_error(entries@) == entry_error(entries@.skip(i as int)),
                self.paths().to_set() == old(self).paths().to_set() + entry_paths(
                    entries@.take(i as int),
                ).to_set(),
            decreases entries@.len() - i,
        {
            match &entries[i] {
                Ok(path) => {
                    self.insert(path.clone());
                    proof {
                        lemma_entry_error_step(entries@, i as int);
                        lemma_entry_paths_take_step(entries@, i as int);
                        Seq::<Seq<Seq<char>>>::lemma_to_set_insert_commutes(
                            entry_paths(entries@.take(i as int)),
                            path@,
                        );
                        assert(self.paths().to_set() =~= old(self).paths().to_set() + entry_paths(
                            entries@.take(i as int + 1),
                        ).to_set());
                    }
                },
                Err(e) => {
                    proof {
                        lemma_entry_error_found(entries@, i as int);
                    }
                    return Err(*e);
                },
            }
            i += 1;
        }
        proof {
            assert(entries@.skip(entries@.len() as int) =~= Seq::<EntryResolution>::empty());
            assert(entries@.take(entries@.len() as int) =~= entries@);
        }
        Ok(())
    }

    /// Record every symlink entry of one class directory listing,
    /// skipping entries that are not symlinks and stopping at the first
    /// symlink whose resolution failed.
    fn scan_class_entries(&mut self, entries: &Vec<ClassEntry>) -> (r: Result<(), ScanError>)
        requires
            old(self).wf(),
        ensures
            final(self).wf(),
            match r {
                Ok(()) => {
                    &&& class_entry_list_error(entries@) is None
                    &&& final(self).paths().to_set() == old(self).paths().to_set()
                        + class_entry_list_paths(entries@).to_set()
                },
                Err(e) => class_entry_list_error(entries@) == Some(e),
            },
    {
        let mut i: usize = 0;
        proof {
            assert(entries@.skip(0) =~= entries@);
            assert(entries@.take(0) =~= Seq::<ClassEntry>::empty());
        }
        while i < entries.len()
            invariant
                i <= entries@.len(),
                self.wf(),
                class_entry_list_error(entries@) == class_entry_list_error(
                    entries@.skip(i as int),
                ),
                self.paths().to_set() == old(self).paths().to_set() + class_entry_list_paths(
                    entries@.take(i as int),
                ).to_set(),
            decreases entries@.len() - i,
        {
            match &entries[i] {
                ClassEntry::NotSymlink => {
                    proof {
                        lemma_class_entry_error_step(entries@, i as int);
                        lemma_class_entry_paths_take_step(entries@, i as int);
                        assert(class_entry_list_paths(entries@.take(i as int))
                            + Seq::<Seq<Seq<char>>>::empty() =~= class_entry_list_paths(
                            entries@.take(i as int),
                        ));
                        assert(self.paths().to_set() =~= old(self).paths().to_set()
                            + class_entry_list_paths(entries@.take(i as int + 1)).to_set());
                    }
                },
                ClassEntry::Link(resolution) => {
                    match resolution {
                        Ok(path) => {
                            self.insert(path.clone());
                            proof {
                                lemma_class_entry_error_step(entries@, i as int);
                                lemma_class_entry_paths_take_step(entries@, i as int);
                                Seq::<Seq<Seq<char>>>::lemma_to_set_insert_commutes(
                                    class_entry_list_paths(entries@.take(i as int)),
                                    path@,
                                );
                                assert(self.paths().to_set() =~= old(self).paths().to_set()
                                    + class_entry_list_paths(entries@.take(i as int + 1)).to_set());
                            }
                        },
                        Err(e) => {
                            proof {
                                lemma_class_entry_error_found(entries@, i as int);
                            }
                            return Err(*e);
                        },
                    }
                },
            }
            i += 1;
        }
        proof {
            assert(entries@.skip(entries@.len() as int) =~= Seq::<ClassEntry>::empty());
            assert(entries@.take(entries@.len() as int) =~= entries@);
        }
        Ok(())
    }

    /// Scan the bus namespace record: every subsystem's resolved
    /// `devices` listing, in order.
    fn scan_bus(&mut self, bus: &Result<Vec<BusSubsystem>, ScanError>) -> (r: Result<
        (),
        ScanError,
    >)
        requires
            old(self).wf(),
        ensures
            final(self).wf(),
            match r {
                Ok(()) => {
                    &&& bus_ns_error(*bus) is None
                    &&& final(self).paths().to_set() == old(self).paths().to_set() + bus_ns_paths(
                        *bus,
                    ).to_set()
                },
                Err(e) => bus_ns_error(*bus) == Some(e),
            },
    {
        let subsystems = match bus {
            Ok(subsystems) => subsystems,
            Err(e) => {
                return Err(*e);
            },
        };
        let mut i: usize = 0;
        proof {
            assert(subsystems@.skip(0) =~= subsystems@);
            assert(subsystems@.take(0) =~= Seq::<BusSubsystem>::empty());
        }
        while i < subsystems.len()
            invariant
                (*bus) is Ok,
                (*bus)->Ok_0 == *subsystems,
                i <= subsystems@.len(),
                self.wf(),
                bus_error(subsystems@) == bus_error(subsystems@.skip(i as int)),
                self.paths().to_set() == old(self).paths().to_set() + bus_paths(
                    subsystems@.take(i as int),
                ).to_set(),
            decreases subsystems@.len() - i,
        {
            match &subsystems[i].entries {
                Ok(entries) => {
                    match self.scan_entries(entries) {
                        Ok(()) => {
                            proof {
                                lemma_bus_error_step(subsystems@, i as int);
                                lemma_bus_paths_take_step(subsystems@, i as int);
                                lemma_to_set_add(
                                    bus_paths(subsystems@.take(i as int)),
                                    subsystem_paths(subsystems@[i as int]),
                                );
                                assert(self.paths().to_set() =~= old(self).paths().to_set()
                                    + bus_paths(subsystems@.take(i as int + 1)).to_set());
                            }
                        },
                        Err(e) => {
                            proof {
                                assert(subsystem_error(subsystems@[i as int]) == Some(e));
                                lemma_bus_error_found(subsystems@, i as int);
                            }
                            return Err(e);
                        },
                    }
                },
                Err(e) => {
                    proof {
                        lemma_bus_error_found(subsystems@, i as int);
                    }
                    return Err(*e);
                },
            }
            i += 1;
        }
        proof {
            assert(subsystems@.skip(subsystems@.len() as int) =~= Seq::<BusSubsystem>::empty());
            assert(subsystems@.take(subsystems@.len() as int) =~= subsystems@);
        }
        Ok(())
    }

    /// Scan the class namespace record: every class directory's listing,
    /// in order, skipping entries that are not symlinks.
    fn scan_class(&mut self, class: &Result<Vec<ClassDir>, ScanError>) -> (r: Result<
        (),
        ScanError,
    >)
        requires
            old(self).wf(),
        ensures
            final(self).wf(),
            match r {
                Ok(()) => {
                    &&& class_ns_error(*class) is None
                    &&& final(self).paths().to_set() == old(self).paths().to_set() + class_ns_paths(
                        *class,
                    ).to_set()
                },
                Err(e) => class_ns_error(*class) == Some(e),
            },
    {
        let dirs = match class {
            Ok(dirs) => dirs,
            Err(e) => {
                return Err(*e);
            },
        };
        let mut i: usize = 0;
        proof {
            assert(dirs@.skip(0) =~= dirs@);
            assert(dirs@.take(0) =~= Seq::<ClassDir>::empty());
        }
        while i < dirs.len()
            invariant
                (*class) is Ok,
                (*class)->Ok_0 == *dirs,
                i <= dirs@.len(),
                self.wf(),
                class_error(dirs@) == class_error(dirs@.skip(i as int)),
                self.paths().to_set() == old(self).paths().to_set() + class_paths(
                    dirs@.take(i as int),
                ).to_set(),
            decreases dirs@.len() - i,
        {
            match &dirs[i].entries {
                Ok(entries) => {
                    match self.scan_class_entries(entries) {
                        Ok(()) => {
                            proof {
                                lemma_class_error_step(dirs@, i as int);
                                lemma_class_paths_take_step(dirs@, i as int);
                                lemma_to_set_add(
                                    class_paths(dirs@.take(i as int)),
                                    class_dir_paths(dirs@[i as int]),
                                );
                                assert(self.paths().to_set() =~= old(self).paths().to_set()
                                    + class_paths(dirs@.take(i as int + 1)).to_set());
                            }
                        },
                        Err(e) => {
                            proof {
                                assert(class_dir_error(dirs@[i as int]) == Some(e));
                                lemma_class_error_found(dirs@, i as int);
                            }
                            return Err(e);
                        },
                    }
                },
                Err(e) => {
                    proof {
                        lemma_class_error_found(dirs@, i as int);
                    }
                    return Err(*e);
                },
            }
            i += 1;
        }
        proof {
            assert(dirs@.skip(dirs@.len() as int) =~= Seq::<ClassDir>::empty());
            assert(dirs@.take(dirs@.len() as int) =~= dirs@);
        }
        Ok(())
    }

    /// Scan the block namespace record: the entries directly under the
    /// block root.
    fn scan_block(&mut self, block: &Result<Vec<EntryResolution>, ScanError>) -> (r: Result<
        (),
        ScanError,
    >)
        requires
            old(self).wf(),
        ensures
            final(self).wf(),
            match r {
                Ok(()) => {
                    &&& block_ns_error(*block) is None
                    &&& final(self).paths().to_set() == old(self).paths().to_set() + block_ns_paths(
                        *block,
                    ).to_set()
                },
                Err(e) => block_ns_error(*block) == Some(e),
            },
    {
        match block {
            Ok(entries) => self.scan_entries(entries),
            Err(e) => Err(*e),
        }
    }

    /// Wrap every accumulated canonical path in a device handle, in
    /// first-discovery order.
    fn into_devices(self) -> (r: Vec<Device>)
        ensures
            device_views(r@) == self.paths(),
    {
        let mut devices: Vec<Device> = Vec::new();
        let mut i: usize = 0;
        proof {
            assert(device_views(devices@) =~= self.paths().take(0));
        }
        while i < self.device_paths.len()
            invariant
                i <= self.device_paths@.len(),
                device_views(devices@) == self.paths().take(i as int),
            decreases self.device_paths@.len() - i,
        {
            let d = Device::from(self.device_paths[i].clone());
            proof {
                assert(d@ == self.paths()[i as int]);
            }
            let ghost pre = devices@;
            devices.push(d);
            proof {
                assert(self.paths().len() == self.device_paths@.len());
                assert(device_views(pre).len() == pre.len());
                assert(pre.len() == i);
                assert(devices@ == pre.push(d));
                assert forall|j: int| 0 <= j < i + 1 implies device_views(devices@)[j]
                    == self.paths().take(i as int + 1)[j] by {
                    assert(device_views(devices@)[j] == devices@[j]@);
                    if j < i {
                        assert(devices@[j] == pre[j]);
                        assert(device_views(pre)[j] == pre[j]@);
                        assert(device_views(pre)[j] == self.paths().take(i as int)[j]);
                    } else {
                        assert(devices@[j] == d);
                    }
                }
                assert(device_views(devices@).len() == i + 1);
                assert(self.paths().take(i as int + 1).len() == i + 1);
                assert(device_views(devices@) =~= self.paths().take(i as int + 1));
            }
            i += 1;
        }
        proof {
            assert(self.paths().take(self.paths().len() as int) =~= self.paths());
        }
        devices
    }

    /// Merge the recorded outcome of walking the three namespaces into
    /// the deduplicated collection of devices, one per distinct canonical
    /// path; fail with the first recorded error, in traversal order.
    pub fn scan(input: &ScanInput) -> (r: Result<Vec<Device>, ScanError>)
        ensures
            match r {
                Ok(devices) => {
                    &&& scan_error(*input) is None
                    &&& device_views(devices@).no_duplicates()
                    &&& device_views(devices@).to_set() == scan_paths(*input).to_set()
                },
                Err(e) => scan_error(*input) == Some(e),
            },
    {
        let mut scanner = Scanner::default();

        match scanner.scan_bus(&input.bus) {
            Ok(()) => {},
            Err(e) => {
                return Err(e);
            },
        }
        match scanner.scan_class(&input.class) {
            Ok(()) => {},
            Err(e) => {
                return Err(e);
            },
        }
        match scanner.scan_block(&input.block) {
            Ok(()) => {},
            Err(e) => {
                return Err(e);
            },
        }

        proof {
            lemma_to_set_add(
                bus_ns_paths(input.bus) + class_ns_paths(input.class),
                block_ns_paths(input.block),
            );
            lemma_to_set_add(bus_ns_paths(input.bus), class_ns_paths(input.class));
            assert(scanner.paths().to_set() =~= scan_paths(*input).to_set());
        }
        let devices = scanner.into_devices();
        Ok(devices)
    }
}

/// Determinism of dedup: a successful scan holds exactly one device per
/// distinct canonical path reachable across the three namespaces, so its
/// length equals the number of distinct canonical paths the walk
/// recorded, however many namespaces each device was linked from.
pub proof fn lemma_scan_dedup(devices: Seq<Device>, input: ScanInput)
    requires
        device_views(devices).no_duplicates(),
        device_views(devices).to_set() == scan_paths(input).to_set(),
    ensures
        devices.len() == scan_paths(input).to_set().len(),
{
    device_views(devices).unique_seq_to_set();
    assert(device_views(devices).len() == devices.len());
}

/// Idempotence: two successful scans of the same recorded fixture tree
/// yield set-equal device collections.
pub proof fn lemma_scan_idempotent(first: Seq<Device>, second: Seq<Device>, input: ScanInput)
    requires
        device_views(first).to_set() == scan_paths(input).to_set(),
        device_views(second).to_set() == scan_paths(input).to_set(),
    ensures
        device_views(first).to_set() == device_views(second).to_set(),
{
}

/// A sequence's set of elements distributes over concatenation.
proof fn lemma_to_set_add<A>(a: Seq<A>, b: Seq<A>)
    ensures
        (a + b).to_set() == a.to_set() + b.to_set(),
{
    assert forall|x: A| (a + b).to_set().contains(x) implies (a.to_set() + b.to_set()).contains(
        x,
    ) by {
        let k = choose|k: int| 0 <= k < (a + b).len() && (a + b)[k] == x;
        if k < a.len() {
            assert(a[k] == x);
        } else {
            assert(b[k - a.len()] == x);
        }
    }
    assert forall|x: A| (a.to_set() + b.to_set()).contains(x) implies (a + b).to_set().contains(
        x,
    ) by {
        if a.to_set().contains(x) {
            let k = choose|k: int| 0 <= k < a.len() && a[k] == x;
            assert((a + b)[k] == x);
        } else {
            let k = choose|k: int| 0 <= k < b.len() && b[k] == x;
            assert((a + b)[a.len() + k] == x);
        }
    }
    assert((a + b).to_set() =~= a.to_set() + b.to_set());
}

/// Stepping over an entry that resolved leaves the remaining first error
/// unchanged.
proof fn lemma_entry_error_step(entries: Seq<EntryResolution>, i: int)
    requires
        0 <= i < entries.len(),
        entries[i] is Ok,
    ensures
        entry_error(entries.skip(i)) == entry_error(entries.skip(i + 1)),
{
    assert(entries.skip(i).first() == entries[i]);
    assert(entries.skip(i).drop_first() =~= entries.skip(i + 1));
}

/// An entry that failed to resolve is the first error of the remaining
/// entries.
proof fn lemma_entry_error_found(entries: Seq<EntryResolution>, i: int)
    requires
        0 <= i < entries.len(),
        entries[i] is Err,
    ensures
        entry_error(entries.skip(i)) == Some(entries[i]->Err_0),
{
    assert(entries.skip(i).first() == entries[i]);
}

/// Taking one more entry appends exactly that entry's contribution.
proof fn lemma_entry_paths_take_step(entries: Seq<EntryResolution>, i: int)
    requires
        0 <= i < entries.len(),
    ensures
        entry_paths(entries.take(i + 1)) == entry_paths(entries.take(i)) + match entries[i] {
            Ok(p) => seq![p@],
            Err(_) => Seq::<Seq<Seq<char>>>::empty(),
        },
{
    assert(entries.take(i + 1).drop_last() =~= entries.take(i));
    assert(entries.take(i + 1).last() == entries[i]);
}

/// Stepping over a class entry that contributes no error leaves the
/// remaining first error unchanged.
proof fn lemma_class_entry_error_step(entries: Seq<ClassEntry>, i: int)
    requires
        0 <= i < entries.len(),
        class_entry_error(entries[i]) is None,
    ensures
        class_entry_list_error(entries.skip(i)) == class_entry_list_error(entries.skip(i + 1)),
{
    assert(entries.skip(i).first() == entries[i]);
    assert(entries.skip(i).drop_first() =~= entries.skip(i + 1));
}

/// A symlink entry that failed to resolve is the first error of the
/// remaining class entries.
proof fn lemma_class_entry_error_found(entries: Seq<ClassEntry>, i: int)
    requires
        0 <= i < entries.len(),
        class_entry_error(entries[i]) is Some,
    ensures
        class_entry_list_error(entries.skip(i)) == class_entry_error(entries[i]),
{
    assert(entries.skip(i).first() == entries[i]);
}

/// Taking one more class entry appends exactly that entry's contribution.
proof fn lemma_class_entry_paths_take_step(entries: Seq<ClassEntry>, i: int)
    requires
        0 <= i < entries.len(),
    ensures
        class_entry_list_paths(entries.take(i + 1)) == class_entry_list_paths(entries.take(i))
            + match entries[i] {
            ClassEntry::NotSymlink => Seq::<Seq<Seq<char>>>::empty(),
            ClassEntry::Link(r) => match r {
                Ok(p) => seq![p@],
                Err(_) => Seq::<Seq<Seq<char>>>::empty(),
            },
        },
{
    assert(entries.take(i + 1).drop_last() =~= entries.take(i));
    assert(entries.take(i + 1).last() == entries[i]);
}

/// Stepping over a subsystem that contributed no error leaves the
/// remaining first error unchanged.
proof fn lemma_bus_error_step(subsystems: Seq<BusSubsystem>, i: int)
    requires
        0 <= i < subsystems.len(),
        subsystem_error(subsystems[i]) is None,
    ensures
        bus_error(subsystems.skip(i)) == bus_error(subsystems.skip(i + 1)),
{
    assert(subsystems.skip(i).first() == subsystems[i]);
    assert(subsystems.skip(i).drop_first() =~= subsystems.skip(i + 1));
}

/// A subsystem that contributed an error is where the remaining first
/// error comes from.
proof fn lemma_bus_error_found(subsystems: Seq<BusSubsystem>, i: int)
    requires
        0 <= i < subsystems.len(),
        subsystem_error(subsystems[i]) is Some,
    ensures
        bus_error(subsystems.skip(i)) == subsystem_error(subsystems[i]),
{
    assert(subsystems.skip(i).first() == subsystems[i]);
}

/// Taking one more subsystem appends exactly its contribution.
proof fn lemma_bus_paths_take_step(subsystems: Seq<BusSubsystem>, i: int)
    requires
        0 <= i < subsystems.len(),
    ensures
        bus_paths(subsystems.take(i + 1)) == bus_paths(subsystems.take(i)) + subsystem_paths(
            subsystems[i],
        ),
{
    assert(subsystems.take(i + 1).drop_last() =~= subsystems.take(i));
    assert(subsystems.take(i + 1).last() == subsystems[i]);
}

/// Stepping over a class directory that contributed no error leaves the
/// remaining first error unchanged.
proof fn lemma_class_error_step(dirs: Seq<ClassDir>, i: int)
    requires
        0 <= i < dirs.len(),
        class_dir_error(dirs[i]) is None,
    ensures
        class_error(dirs.skip(i)) == class_error(dirs.skip(i + 1)),
{
    assert(dirs.skip(i).first() == dirs[i]);
    assert(dirs.skip(i).drop_first() =~= dirs.skip(i + 1));
}

/// A class directory that contributed an error is where the remaining
/// first error comes from.
proof fn lemma_class_error_found(dirs: Seq<ClassDir>, i: int)
    requires
        0 <= i < dirs.len(),
        class_dir_error(dirs[i]) is Some,
    ensures
        class_error(dirs.skip(i)) == class_dir_error(dirs[i]),
{
    assert(dirs.skip(i).first() == dirs[i]);
}

/// Taking one more class directory appends exactly its contribution.
proof fn lemma_class_paths_take_step(dirs: Seq<ClassDir>, i: int)
    requires
        0 <= i < dirs.len(),
    ensures
        class_paths(dirs.take(i + 1)) == class_paths(dirs.take(i)) + class_dir_paths(dirs[i]),
{
    assert(dirs.take(i + 1).drop_last() =~= dirs.take(i));
    assert(dirs.take(i + 1).last() == dirs[i]);
}

} // verus!
