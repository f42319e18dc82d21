//! The project working set: the manifest, the editor version, and the
//! classification of every directory under the package folder into installed
//! (locked and matching) or unlocked.

use vstd::prelude::*;
use crate::descriptor::{DescV, PackageDescriptor};
use crate::manifest::{
    has_entry, is_reach_set, keep_entries, manifest_wf, names_set, removed_names, str_seq,
    sweep_basis, sweep_closed, EntryV, LockedEntry, Manifest, RawEntry,
};
use crate::unity::{editor_version_sem, parse_editor_version, UnityVersion};

verus! {

/// One directory under the package folder: its name and its descriptor, if
/// one parsed.
#[derive(Debug)]
pub struct DirEntry {
    pub dir_name: String,
    pub descriptor: Option<PackageDescriptor>,
}

/// Mathematical value of a directory entry.
#[verifier::ext_equal]
pub ghost struct DirEntryV {
    pub dir_name: Seq<char>,
    pub descriptor: Option<DescV>,
}

impl View for DirEntry {
    type V = DirEntryV;

    open spec fn view(&self) -> DirEntryV {
        DirEntryV {
            dir_name: self.dir_name@,
            descriptor: match self.descriptor {
                Some(ref d) => Some(d@),
                None => None,
            },
        }
    }
}

pub open spec fn dirs_view(v: Seq<DirEntry>) -> Seq<DirEntryV> {
    Seq::new(v.len(), |i: int| v[i]@)
}

/// A directory is installed when its descriptor parsed, the descriptor's
/// name equals the directory name, and that name is locked.
pub open spec fn is_installed_dir(m: Seq<EntryV>, e: DirEntryV) -> bool {
    e.descriptor is Some && e.descriptor.unwrap().name == e.dir_name && has_entry(m, e.dir_name)
}

/// The installed descriptors among the directory entries, in order.
pub open spec fn installed_of(m: Seq<EntryV>, es: Seq<DirEntryV>) -> Seq<DescV>
    decreases es.len(),
{
    if es.len() == 0 {
        Seq::empty()
    } else if is_installed_dir(m, es.last()) {
        installed_of(m, es.drop_last()).push(es.last().descriptor.unwrap())
    } else {
        installed_of(m, es.drop_last())
    }
}

/// The unlocked directory entries, in order.
pub open spec fn unlocked_of(m: Seq<EntryV>, es: Seq<DirEntryV>) -> Seq<DirEntryV>
    decreases es.len(),
{
    if es.len() == 0 {
        Seq::empty()
    } else if is_installed_dir(m, es.last()) {
        unlocked_of(m, es.drop_last())
    } else {
        unlocked_of(m, es.drop_last()).push(es.last())
    }
}

/// Every directory lands in exactly one of the two classes.
pub proof fn lemma_classification_partition(m: Seq<EntryV>, es: Seq<DirEntryV>)
    ensures
        installed_of(m, es).len() + unlocked_of(m, es).len() == es.len(),
    decreases es.len(),
{
    if es.len() > 0 {
        lemma_classification_partition(m, es.drop_last());
    }
}

/// The engine's working set for one project.
#[derive(Debug)]
pub struct UnityProject {
    /// Path of the project folder (kept as text; the engine does no I/O).
    pub project_dir: String,
    pub manifest: Manifest,
    /// The editor version, when the marker file yielded one.
    pub unity_version: Option<UnityVersion>,
    /// Directories under the package folder that are not proper locked
    /// installations.
    pub unlocked_packages: Vec<DirEntry>,
    /// Locked packages whose payload is present and matching on disk.
    pub installed_packages: Vec<PackageDescriptor>,
}

impl UnityProject {
    /// The project invariant: a well-formed manifest, and every installed
    /// package locked under its own name.
    pub open spec fn wf(&self) -> bool {
        &&& self.manifest.wf()
        &&& forall|i: int| 0 <= i < self.installed_packages@.len()
            ==> has_entry(self.manifest@, (#[trigger] self.installed_packages@[i])@.name)
    }

    /// Builds the working set from what was read off disk: the manifest, the
    /// directory listing of the package folder, and the text of the editor
    /// version file if it could be read. Never fails: classification is
    /// total, and a missing or corrupt editor version file yields `None`.
    pub fn load(
        project_dir: String,
        manifest: Manifest,
        dir_entries: Vec<DirEntry>,
        editor_text: Option<Vec<u8>>,
    ) -> (r: UnityProject)
        requires
            manifest.wf(),
        ensures
            r.wf(),
            r.manifest@ == manifest@,
            r.project_dir@ == project_dir@,
            Seq::new(r.installed_packages@.len(), |i: int| r.installed_packages@[i]@)
                =~= installed_of(manifest@, dirs_view(dir_entries@)),
            dirs_view(r.unlocked_packages@) =~= unlocked_of(manifest@, dirs_view(dir_entries@)),
            r.unity_version == match editor_text {
                Some(t) => editor_version_sem(t@),
                None => None::<UnityVersion>,
            },
    {
        let ghost es = dirs_view(dir_entries@);
        let mut installed: Vec<PackageDescriptor> = Vec::new();
        let mut unlocked: Vec<DirEntry> = Vec::new();
        let mut i: usize = 0;
        while i < dir_entries.len()
            invariant
                i <= dir_entries@.len(),
                es == dirs_view(dir_entries@),
                manifest.wf(),
                Seq::new(installed@.len(), |q: int| installed@[q]@)
                    =~= installed_of(manifest@, es.take(i as int)),
                dirs_view(unlocked@) =~= unlocked_of(manifest@, es.take(i as int)),
            decreases dir_entries@.len() - i,
        {
            proof {
                assert(es.take(i + 1).drop_last() =~= es.take(i as int));
                assert(es.take(i + 1).last() == es[i as int]);
            }
            let e = &dir_entries[i];
            let mut installed_here = false;
            match e.descriptor {
                Some(ref d) => {
                    if d.name.eq(&e.dir_name) && manifest.is_locked(&d.name) {
                        installed_here = true;
                    }
                },
                None => {},
            }
            if installed_here {
                match e.descriptor {
                    Some(ref d) => {
                        installed.push(d.duplicate());
                    },
                    None => {
                        proof {
                            assert(false);
                        }
                    },
                }
            } else {
                unlocked.push(e.duplicate_entry());
                proof {
                    assert(!is_installed_dir(manifest@, es[i as int]));
                }
            }
            i += 1;
        }
        proof {
            assert(es.take(es.len() as int) =~= es);
        }
        let unity_version = match editor_text {
            Some(ref t) => parse_editor_version(t.as_slice()),
            None => None,
        };
        let r = UnityProject {
            project_dir,
            manifest,
            unity_version,
            unlocked_packages: unlocked,
            installed_packages: installed,
        };
        proof {
            assert(r.wf()) by {
                assert forall|q: int| 0 <= q < r.installed_packages@.len()
                    implies has_entry(r.manifest@, (#[trigger] r.installed_packages@[q])@.name) by {
                    lemma_installed_of_locked(r.manifest@, es);
                    assert(r.installed_packages@[q]@ == installed_of(r.manifest@, es)[q]);
                }
            }
        }
        r
    }

    /// The locked entries, in insertion order.
    pub fn locked_packages(&self) -> (r: &Vec<LockedEntry>)
        ensures
            r@.len() == self.manifest@.len(),
            forall|i: int| 0 <= i < r@.len() ==> #[trigger] r@[i]@ == self.manifest@[i],
    {
        self.manifest.all_locked()
    }

    /// Whether `name` is locked.
    pub fn is_locked(&self, name: &String) -> (r: bool)
        requires
            self.wf(),
        ensures
            r == has_entry(self.manifest@, name@),
    {
        self.manifest.is_locked(name)
    }

    /// The unlocked directory entries.
    pub fn unlocked_packages(&self) -> (r: &Vec<DirEntry>)
        ensures
            r == &self.unlocked_packages,
    {
        &self.unlocked_packages
    }

    /// The installed descriptor for `name`, if its payload is present and
    /// matching.
    pub fn get_installed_package(&self, name: &String) -> (r: Option<&PackageDescriptor>)
        ensures
            match r {
                Some(d) => exists|i: int| 0 <= i < self.installed_packages@.len()
                    && (#[trigger] self.installed_packages@[i])@ == d@
                    && d@.name == name@,
                None => forall|i: int| 0 <= i < self.installed_packages@.len()
                    ==> (#[trigger] self.installed_packages@[i])@.name != name@,
            },
    {
        let mut i: usize = 0;
        while i < self.installed_packages.len()
            invariant
                i <= self.installed_packages@.len(),
                forall|j: int| 0 <= j < i
                    ==> (#[trigger] self.installed_packages@[j])@.name != name@,
            decreases self.installed_packages@.len() - i,
        {
            if self.installed_packages[i].name.eq(name) {
                return Some(&self.installed_packages[i]);
            }
            i += 1;
        }
        None
    }

    /// The project folder.
    pub fn project_dir(&self) -> (r: &String)
        ensures
            r == &self.project_dir,
    {
        &self.project_dir
    }

    /// The detected editor version, if any.
    pub fn unity_version(&self) -> (r: Option<UnityVersion>)
        ensures
            r == self.unity_version,
    {
        self.unity_version
    }

    /// The rows to persist as the lock file.
    pub fn save_rows(&self) -> (r: Vec<RawEntry>)
        ensures
            crate::manifest::rows_render(self.manifest@, crate::manifest::rows_view(r@)),
    {
        self.manifest.to_rows()
    }
}

/// Installed descriptors are locked under their own names.
proof fn lemma_installed_of_locked(m: Seq<EntryV>, es: Seq<DirEntryV>)
    ensures
        forall|q: int| 0 <= q < installed_of(m, es).len()
            ==> has_entry(m, (#[trigger] installed_of(m, es)[q]).name),
    decreases es.len(),
{
    if es.len() > 0 {
        lemma_installed_of_locked(m, es.drop_last());
        if is_installed_dir(m, es.last()) {
            assert(installed_of(m, es).last() == es.last().descriptor.unwrap());
        }
    }
}

impl DirEntry {
    /// An exact copy of this directory entry.
    pub fn duplicate_entry(&self) -> (r: DirEntry)
        ensures
            r@ =~= self@,
    {
        DirEntry {
            dir_name: self.dir_name.clone(),
            descriptor: match self.descriptor {
                Some(ref d) => Some(d.duplicate()),
                None => None,
            },
        }
    }
}

/// The locked-entry form of the unlocked packages' descriptors, in order.
pub open spec fn unlocked_as_entries(unl: Seq<DirEntryV>) -> Seq<EntryV>
    decreases unl.len(),
{
    if unl.len() == 0 {
        Seq::empty()
    } else if unl.last().descriptor is Some {
        unlocked_as_entries(unl.drop_last()).push(EntryV {
            name: unl.last().descriptor.unwrap().name,
            version: unl.last().descriptor.unwrap().version,
            dependencies: unl.last().descriptor.unwrap().dependencies,
        })
    } else {
        unlocked_as_entries(unl.drop_last())
    }
}

impl UnityProject {
    /// Every package the project holds: the locked entries, then one entry
    /// for each unlocked package that has a descriptor, under the
    /// descriptor's own name.
    #[verifier::loop_isolation(false)]
    pub fn all_packages(&self) -> (r: Vec<LockedEntry>)
        ensures
            Seq::new(r@.len(), |i: int| r@[i]@)
                =~= self.manifest@ + unlocked_as_entries(dirs_view(self.unlocked_packages@)),
    {
        let ghost unl = dirs_view(self.unlocked_packages@);
        let mut out: Vec<LockedEntry> = Vec::new();
        let locked = self.manifest.all_locked();
        let mut i: usize = 0;
        while i < locked.len()
            invariant
                i <= self.manifest@.len(),
                locked@.len() == self.manifest@.len(),
                forall|q: int| 0 <= q < locked@.len()
                    ==> #[trigger] locked@[q]@ == self.manifest@[q],
                out@.len() == i,
                forall|q: int| 0 <= q < i ==> #[trigger] out@[q]@ == self.manifest@[q],
            decreases self.manifest@.len() - i,
        {
            out.push(locked[i].duplicate());
            i += 1;
        }
        let mut u: usize = 0;
        while u < self.unlocked_packages.len()
            invariant
                u <= unl.len(),
                unl == dirs_view(self.unlocked_packages@),
                Seq::new(out@.len(), |q: int| out@[q]@)
                    =~= self.manifest@ + unlocked_as_entries(unl.take(u as int)),
            decreases unl.len() - u,
        {
            proof {
                assert(unl.take(u + 1).drop_last() =~= unl.take(u as int));
                assert(unl.take(u + 1).last() == unl[u as int]);
            }
            let entry_ref = &self.unlocked_packages[u];
            match entry_ref.descriptor {
                Some(ref d) => {
                    proof {
                        assert(unl[u as int].descriptor == Some(d@));
                    }
                    let ghost prevout = out@;
                    out.push(LockedEntry {
                        name: d.name.clone(),
                        version: d.version.duplicate(),
                        dependencies: crate::descriptor::duplicate_deps(&d.dependencies),
                    });
                    proof {
                        assert(out@.drop_last() =~= prevout);
                        assert(forall|q: int| 0 <= q < prevout.len()
                            ==> #[trigger] out@[q] == prevout[q]);
                        assert(out@.last()@ =~~= EntryV {
                            name: unl[u as int].descriptor.unwrap().name,
                            version: unl[u as int].descriptor.unwrap().version,
                            dependencies: unl[u as int].descriptor.unwrap().dependencies,
                        });
                        assert(unl.take(u + 1).len() == u + 1);
                        assert(unl.take(u + 1).last().descriptor is Some);
                        assert(unlocked_as_entries(unl.take(u + 1))
                            == unlocked_as_entries(unl.take(u + 1).drop_last()).push(EntryV {
                                name: unl.take(u + 1).last().descriptor.unwrap().name,
                                version: unl.take(u + 1).last().descriptor.unwrap().version,
                                dependencies: unl.take(u + 1).last().descriptor.unwrap()
                                    .dependencies,
                            }));
                        assert(unlocked_as_entries(unl.take(u + 1).drop_last())
                            == unlocked_as_entries(unl.take(u as int)));
                        assert(unlocked_as_entries(unl.take(u + 1))
                            =~~= unlocked_as_entries(unl.take(u as int)).push(out@.last()@));
                        let ghost m = self.manifest@;
                        let ghost uaev = unlocked_as_entries(unl.take(u + 1));
                        let ghost uaep = unlocked_as_entries(unl.take(u as int));
                        assert(uaev.len() == uaep.len() + 1);
                        assert(Seq::new(out@.len(), |q: int| out@[q]@) =~= m + uaev) by {
                            assert(out@.len() == prevout.len() + 1);
                            assert(Seq::new(prevout.len(), |q: int| prevout[q]@)
                                == m + uaep);
                            assert forall|q: int| 0 <= q < out@.len()
                                implies (#[trigger] out@[q])@ == (m + uaev)[q] by {
                                if q < prevout.len() {
                                    assert(prevout[q]@
                                        == Seq::new(prevout.len(), |x: int| prevout[x]@)[q]);
                                    assert(prevout[q]@ == (m + uaep)[q]);
                                    if q >= m.len() {
                                        assert(uaev[q - m.len()] == uaep[q - m.len()]);
                                    }
                                } else {
                                    assert((m + uaev)[q] == uaev.last());
                                }
                            }
                        }
                    }
                },
                None => {
                    proof {
                        assert(unl[u as int].descriptor is None);
                        assert(unlocked_as_entries(unl.take(u + 1))
                            =~= unlocked_as_entries(unl.take(u as int)));
                    }
                },
            }
            u += 1;
        }
        proof {
            assert(unl.take(unl.len() as int) =~= unl);
        }
        out
    }
}

/// The installed records whose names a manifest still locks, in order.
pub open spec fn installed_kept(inst: Seq<PackageDescriptor>, m: Seq<EntryV>) -> Seq<DescV>
    decreases inst.len(),
{
    if inst.len() == 0 {
        Seq::empty()
    } else if has_entry(m, inst.last()@.name) {
        installed_kept(inst.drop_last(), m).push(inst.last()@)
    } else {
        installed_kept(inst.drop_last(), m)
    }
}

/// The dependency names the unlocked packages declare: the sweep roots.
pub open spec fn unlocked_dep_set(unl: Seq<DirEntryV>) -> Set<Seq<char>> {
    Set::new(|n: Seq<char>| exists|u: int, d: int|
        0 <= u < unl.len() && (#[trigger] unl[u]).descriptor is Some
            && 0 <= d < unl[u].descriptor.unwrap().dependencies.len()
            && (#[trigger] unl[u].descriptor.unwrap().dependencies[d]).name == n)
}

impl UnityProject {
    /// Removes every locked entry not reachable from the unlocked packages'
    /// declared dependencies, drops the corresponding installed payload
    /// records, and returns the removed names (their directories are then
    /// deleted by the caller). A second run right after removes nothing.
    #[verifier::loop_isolation(false)]
    pub fn mark_and_sweep(&mut self) -> (removed: Vec<String>)
        requires
            old(self).wf(),
        ensures
            final(self).wf(),
            final(self).unlocked_packages@ == old(self).unlocked_packages@,
            final(self).project_dir == old(self).project_dir,
            final(self).unity_version == old(self).unity_version,
            Seq::new(final(self).installed_packages@.len(),
                |q: int| final(self).installed_packages@[q]@)
                =~= installed_kept(old(self).installed_packages@, final(self).manifest@),
            exists|s: Set<Seq<char>>| {
                &&& #[trigger] is_reach_set_of_project(
                    old(self).manifest@,
                    dirs_view(old(self).unlocked_packages@),
                    s,
                )
                &&& final(self).manifest@ =~= keep_entries(old(self).manifest@, s)
                &&& str_seq(removed@) =~= removed_names(old(self).manifest@, s)
            },
    {
        let ghost m = self.manifest@;
        let ghost unl = dirs_view(self.unlocked_packages@);

        // Collect the root names: every dependency name an unlocked
        // descriptor declares.
        let mut roots: Vec<String> = Vec::new();
        let mut u: usize = 0;
        while u < self.unlocked_packages.len()
            invariant
                u <= unl.len(),
                unl == dirs_view(self.unlocked_packages@),
                forall|a: int| 0 <= a < roots@.len() ==> unlocked_dep_set(unl).contains(
                    #[trigger] roots@[a]@,
                ),
                forall|up: int, d: int|
                    0 <= up < u && (#[trigger] unl[up]).descriptor is Some
                        && 0 <= d < unl[up].descriptor.unwrap().dependencies.len()
                    ==> names_set(roots@).contains(
                        (#[trigger] unl[up].descriptor.unwrap().dependencies[d]).name,
                    ),
            decreases unl.len() - u,
        {
            match self.unlocked_packages[u].descriptor {
                Some(ref desc) => {
                    let mut d: usize = 0;
                    while d < desc.dependencies.len()
                        invariant
                            u < unl.len(),
                            d <= desc.dependencies@.len(),
                            unl == dirs_view(self.unlocked_packages@),
                            unl[u as int].descriptor == Some(desc@),
                            forall|a: int| 0 <= a < roots@.len()
                                ==> unlocked_dep_set(unl).contains(#[trigger] roots@[a]@),
                            forall|up: int, dd: int|
                                0 <= up < u && (#[trigger] unl[up]).descriptor is Some
                                    && 0 <= dd < unl[up].descriptor.unwrap().dependencies.len()
                                ==> names_set(roots@).contains(
                                    (#[trigger] unl[up].descriptor.unwrap().dependencies[dd]).name,
                                ),
                            forall|dd: int| 0 <= dd < d
                                ==> names_set(roots@).contains(
                                    (#[trigger] unl[u as int].descriptor.unwrap()
                                        .dependencies[dd]).name,
                                ),
                        decreases desc.dependencies@.len() - d,
                    {
                        let ghost prev = roots@;
                        roots.push(desc.dependencies[d].name.clone());
                        proof {
                            assert(roots@.drop_last() =~= prev);
                            assert(roots@.last()@
                                == unl[u as int].descriptor.unwrap().dependencies[d as int].name);
                            assert(forall|a: int| 0 <= a < prev.len()
                                ==> #[trigger] roots@[a] == prev[a]);
                            assert forall|dd: int| 0 <= dd <= d
                                implies names_set(roots@).contains(
                                    (#[trigger] unl[u as int].descriptor.unwrap()
                                        .dependencies[dd]).name,
                                ) by {
                                if dd < d {
                                    let w = choose|w: int| 0 <= w < prev.len()
                                        && #[trigger] prev[w]@ == unl[u as int].descriptor
                                            .unwrap().dependencies[dd].name;
                                    assert(roots@[w]@ == unl[u as int].descriptor.unwrap()
                                        .dependencies[dd].name);
                                } else {
                                    assert(roots@[roots@.len() - 1]@ == unl[u as int]
                                        .descriptor.unwrap().dependencies[dd].name);
                                }
                            }
                            assert forall|up: int, dd: int|
                                0 <= up < u && (#[trigger] unl[up]).descriptor is Some
                                    && 0 <= dd < unl[up].descriptor.unwrap().dependencies.len()
                                implies names_set(roots@).contains(
                                    (#[trigger] unl[up].descriptor.unwrap().dependencies[dd]).name,
                                ) by {
                                let w = choose|w: int| 0 <= w < prev.len()
                                    && #[trigger] prev[w]@ == unl[up].descriptor.unwrap()
                                        .dependencies[dd].name;
                                assert(roots@[w]@ == unl[up].descriptor.unwrap()
                                    .dependencies[dd].name);
                            }
                        }
                        d += 1;
                    }
                },
                None => {},
            }
            u += 1;
        }

        let removed = self.manifest.mark_and_sweep_packages(&roots);

        // Drop installed records whose entry was swept.
        let mut still: Vec<PackageDescriptor> = Vec::new();
        let ghost inst = self.installed_packages@;
        let mut i: usize = 0;
        while i < self.installed_packages.len()
            invariant
                i <= inst.len(),
                self.installed_packages@ == inst,
                self.manifest.wf(),
                Seq::new(still@.len(), |q: int| still@[q]@)
                    =~= installed_kept(inst.take(i as int), self.manifest@),
                forall|q: int| 0 <= q < still@.len()
                    ==> has_entry(self.manifest@, (#[trigger] still@[q])@.name),
            decreases inst.len() - i,
        {
            proof {
                assert(inst.take(i + 1).drop_last() =~= inst.take(i as int));
                assert(inst.take(i + 1).last() == inst[i as int]);
            }
            if self.manifest.is_locked(&self.installed_packages[i].name) {
                still.push(self.installed_packages[i].duplicate());
            }
            i += 1;
        }
        proof {
            assert(inst.take(inst.len() as int) =~= inst);
        }
        self.installed_packages = still;

        proof {
            let s = choose|s: Set<Seq<char>>| {
                &&& #[trigger] is_reach_set(m, str_seq(roots@), s)
                &&& self.manifest@ =~= keep_entries(m, s)
                &&& str_seq(removed@) =~= removed_names(m, s)
            };
            assert(is_reach_set_of_project(m, unl, s)) by {
                assert(sweep_basis_of_project(m, unl, s)) by {
                    assert forall|up: int, d: int|
                        0 <= up < unl.len() && (#[trigger] unl[up]).descriptor is Some
                            && 0 <= d < unl[up].descriptor.unwrap().dependencies.len()
                            && has_entry(m,
                                (#[trigger] unl[up].descriptor.unwrap().dependencies[d]).name)
                        implies s.contains(unl[up].descriptor.unwrap().dependencies[d].name) by {
                        let n = unl[up].descriptor.unwrap().dependencies[d].name;
                        let w = choose|w: int| 0 <= w < roots@.len()
                            && #[trigger] roots@[w]@ == n;
                        assert(str_seq(roots@)[w] == n);
                        assert(sweep_basis(m, str_seq(roots@), s));
                    }
                }
                assert forall|t: Set<Seq<char>>|
                    sweep_basis_of_project(m, unl, t) && sweep_closed(m, t)
                    implies s.subset_of(t) by {
                    assert(sweep_basis(m, str_seq(roots@), t)) by {
                        assert forall|a: int|
                            0 <= a < str_seq(roots@).len()
                                && has_entry(m, #[trigger] str_seq(roots@)[a])
                            implies t.contains(str_seq(roots@)[a]) by {
                            assert(unlocked_dep_set(unl).contains(roots@[a]@));
                            let (up, d): (int, int) = choose|up: int, d: int|
                                0 <= up < unl.len() && (#[trigger] unl[up]).descriptor is Some
                                    && 0 <= d < unl[up].descriptor.unwrap().dependencies.len()
                                    && (#[trigger] unl[up].descriptor.unwrap().dependencies[d])
                                        .name == roots@[a]@;
                            assert(t.contains(unl[up].descriptor.unwrap().dependencies[d].name));
                        }
                    }
                }
            }
        }
        removed
    }
}

/// The basis over the project's unlocked packages: every declared dependency
/// name that is locked.
pub open spec fn sweep_basis_of_project(
    m: Seq<EntryV>,
    unl: Seq<DirEntryV>,
    s: Set<Seq<char>>,
) -> bool {
    forall|up: int, d: int|
        0 <= up < unl.len() && (#[trigger] unl[up]).descriptor is Some
            && 0 <= d < unl[up].descriptor.unwrap().dependencies.len()
            && has_entry(m, (#[trigger] unl[up].descriptor.unwrap().dependencies[d]).name)
        ==> s.contains(unl[up].descriptor.unwrap().dependencies[d].name)
}

/// The reachable set, rooted at the unlocked packages' declared dependency
/// names.
pub open spec fn is_reach_set_of_project(
    m: Seq<EntryV>,
    unl: Seq<DirEntryV>,
    s: Set<Seq<char>>,
) -> bool {
    &&& forall|n: Seq<char>| s.contains(n) ==> has_entry(m, n)
    &&& sweep_basis_of_project(m, unl, s)
    &&& sweep_closed(m, s)
    &&& forall|t: Set<Seq<char>>|
        #![trigger sweep_basis_of_project(m, unl, t), sweep_closed(m, t)]
        sweep_basis_of_project(m, unl, t) && sweep_closed(m, t) ==> s.subset_of(t)
}

} // verus!
