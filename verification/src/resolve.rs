//! The package index snapshot, version selectors, and the resolution pass:
//! satisfy every locked entry exactly, then resolve the unlocked packages'
//! dependency closure, commit to the manifest only when a full solution
//! exists, and report the packages to materialize.

use vstd::prelude::*;
use crate::descriptor::{deps_view, DescV, Dependency, PackageDescriptor, duplicate_deps};
use crate::manifest::{has_entry, EntryV, Manifest};
use crate::project::{dirs_view, DirEntry, DirEntryV, UnityProject};
use crate::ranges::{range_text_has_pre, range_text_matches};
use crate::semver::{version_le, lemma_version_order_connected, Version, VersionV};
use crate::unity::{unity_le, UnityVersion};
use crate::version_text::append_bytes;

verus! {

/// A snapshot of the package index: every available package descriptor.
#[derive(Debug)]
pub struct Environment {
    pub packages: Vec<PackageDescriptor>,
}

impl View for Environment {
    type V = Seq<DescV>;

    open spec fn view(&self) -> Seq<DescV> {
        Seq::new(self.packages@.len(), |i: int| self.packages@[i]@)
    }
}

/// The resolution criterion handed to the index.
#[derive(Debug)]
pub enum VersionSelector {
    /// Exactly this version.
    Specific { version: Version },
    /// Every range, gated by the editor version and pre-release
    /// admissibility.
    Ranges { ranges: Vec<Vec<u8>>, editor: Option<UnityVersion>, allow_prerelease: bool },
}

/// Mathematical value of a selector.
#[verifier::ext_equal]
pub ghost enum SelV {
    Specific { version: VersionV },
    Ranges { ranges: Seq<Seq<u8>>, editor: Option<UnityVersion>, allow_prerelease: bool },
}

impl View for VersionSelector {
    type V = SelV;

    open spec fn view(&self) -> SelV {
        match self {
            VersionSelector::Specific { version } => SelV::Specific { version: version@ },
            VersionSelector::Ranges { ranges, editor, allow_prerelease } => SelV::Ranges {
                ranges: Seq::new(ranges@.len(), |i: int| ranges@[i]@),
                editor: *editor,
                allow_prerelease: *allow_prerelease,
            },
        }
    }
}

/// A package that needs an editor at least `req` is admissible under a
/// detected editor version `editor`; an unknown side gates nothing.
pub open spec fn unity_ok(req: Option<UnityVersion>, editor: Option<UnityVersion>) -> bool {
    match (req, editor) {
        (Some(u), Some(e)) => unity_le(u, e),
        _ => true,
    }
}

/// Whether the selector admits a package.
pub open spec fn selector_admits(sel: SelV, d: DescV) -> bool {
    match sel {
        SelV::Specific { version } => d.version == version,
        SelV::Ranges { ranges, editor, allow_prerelease } => {
            &&& (d.version.is_release() || allow_prerelease
                || exists|i: int| 0 <= i < ranges.len()
                    && range_text_has_pre(#[trigger] ranges[i])
                    && range_text_matches(ranges[i], d.version))
            &&& unity_ok(d.unity, editor)
            &&& exists|i: int| 0 <= i < ranges.len()
                && range_text_matches(#[trigger] ranges[i], d.version)
        },
    }
}

impl VersionSelector {
    /// Whether this selector admits the package.
    #[verifier::loop_isolation(false)]
    pub fn admits(&self, d: &PackageDescriptor) -> (r: bool)
        ensures
            r == selector_admits(self@, d@),
    {
        match self {
            VersionSelector::Specific { version } => d.version.ver_eq(version),
            VersionSelector::Ranges { ranges, editor, allow_prerelease } => {
                if !(d.version.is_release() || *allow_prerelease) {
                    // a pre-release is still admissible when a range that
                    // names a pre-release matches it
                    let mut k: usize = 0;
                    let mut pre_ok = false;
                    while k < ranges.len() && !pre_ok
                        invariant
                            k <= ranges@.len(),
                            pre_ok ==> exists|i: int| 0 <= i < ranges@.len()
                                && range_text_has_pre(#[trigger] ranges@[i]@)
                                && range_text_matches(ranges@[i]@, d@.version),
                            !pre_ok ==> forall|i: int| 0 <= i < k
                                ==> !(range_text_has_pre(#[trigger] ranges@[i]@)
                                    && range_text_matches(ranges@[i]@, d@.version)),
                        decreases ranges@.len() - k + (if pre_ok { 0int } else { 1int }),
                    {
                        if crate::ranges::VersionRange::text_has_pre(ranges[k].as_slice())
                            && crate::ranges::VersionRange::text_matches(
                                ranges[k].as_slice(), &d.version) {
                            pre_ok = true;
                        } else {
                            k += 1;
                        }
                    }
                    if !pre_ok {
                        proof {
                            assert forall|i: int| 0 <= i < (self@->ranges).len()
                                implies !(range_text_has_pre(#[trigger] (self@->ranges)[i])
                                    && range_text_matches((self@->ranges)[i], d@.version))
                                by {
                                assert((self@->ranges)[i] == ranges@[i]@);
                            }
                        }
                        return false;
                    }
                    proof {
                        let i = choose|i: int| 0 <= i < ranges@.len()
                            && range_text_has_pre(#[trigger] ranges@[i]@)
                            && range_text_matches(ranges@[i]@, d@.version);
                        assert((self@->ranges)[i] == ranges@[i]@);
                    }
                }
                match (d.unity, editor) {
                    (Some(u), Some(e)) => {
                        if !u.le(e) {
                            return false;
                        }
                    },
                    _ => {},
                }
                let mut i: usize = 0;
                while i < ranges.len()
                    invariant
                        i <= ranges@.len(),
                        forall|j: int| 0 <= j < i
                            ==> !range_text_matches(#[trigger] ranges@[j]@, d@.version),
                    decreases ranges@.len() - i,
                {
                    if crate::ranges::VersionRange::text_matches(ranges[i].as_slice(), &d.version) {
                        proof {
                            assert(range_text_matches(ranges@[i as int]@, d@.version));
                            assert((self@->ranges)[i as int] == ranges@[i as int]@);
                        }
                        return true;
                    }
                    i += 1;
                }
                proof {
                    assert forall|j: int| 0 <= j < (self@->ranges).len()
                        implies !range_text_matches(#[trigger] (self@->ranges)[j], d@.version) by {
                        assert((self@->ranges)[j] == ranges@[j]@);
                    }
                }
                false
            },
        }
    }
}

impl Environment {
    /// The best (highest-versioned) package named `name` that the selector
    /// admits, or `None` when no package qualifies.
    #[verifier::loop_isolation(false)]
    pub fn find_package_by_name(
        &self,
        name: &String,
        selector: &VersionSelector,
    ) -> (r: Option<&PackageDescriptor>)
        ensures
            match r {
                Some(p) => {
                    &&& exists|i: int| 0 <= i < self@.len() && #[trigger] self@[i] == p@
                    &&& p@.name == name@
                    &&& selector_admits(selector@, p@)
                    &&& forall|i: int| 0 <= i < self@.len()
                        && (#[trigger] self@[i]).name == name@
                        && selector_admits(selector@, self@[i])
                        ==> version_le(self@[i].version, p@.version)
                },
                None => forall|i: int| 0 <= i < self@.len()
                    ==> !((#[trigger] self@[i]).name == name@
                        && selector_admits(selector@, self@[i])),
            },
    {
        let mut best: usize = 0;
        let mut have = false;
        let mut i: usize = 0;
        while i < self.packages.len()
            invariant
                i <= self@.len(),
                have ==> best < i,
                have ==> self@[best as int].name == name@
                    && selector_admits(selector@, self@[best as int]),
                forall|j: int| 0 <= j < i && (#[trigger] self@[j]).name == name@
                    && selector_admits(selector@, self@[j])
                    ==> have && version_le(self@[j].version, self@[best as int].version),
            decreases self@.len() - i,
        {
            let p = &self.packages[i];
            if p.name.eq(name) && selector.admits(p) {
                if !have {
                    best = i;
                    have = true;
                } else if self.packages[best].version.ver_lt(&p.version) {
                    proof {
                        assert forall|j: int|
                            0 <= j < i && (#[trigger] self@[j]).name == name@
                                && selector_admits(selector@, self@[j])
                            implies version_le(self@[j].version, self@[i as int].version) by {
                            assert(version_le(self@[j].version, self@[best as int].version));
                            crate::semver::lemma_version_le_trans(
                                self@[j].version,
                                self@[best as int].version,
                                self@[i as int].version,
                            );
                        }
                    }
                    best = i;
                } else {
                    proof {
                        lemma_version_order_connected(
                            self@[best as int].version,
                            self@[i as int].version,
                        );
                        assert(version_le(self@[i as int].version, self@[best as int].version));
                    }
                }
            }
            i += 1;
        }
        if have {
            Some(&self.packages[best])
        } else {
            None
        }
    }
}

/// Why a resolution failed. A failed resolution commits nothing to the
/// manifest.
#[derive(Debug)]
pub enum ResolvePackageErr {
    /// No package in the index satisfies what is required of
    /// `dependency_name`.
    DependencyNotFound { dependency_name: String },
    /// Two requirers of `conflict` cannot both be satisfied by the chosen
    /// version; `dependency_name` is the requirer found in conflict.
    ConflictWithDependencies { conflict: String, dependency_name: String },
}

impl ResolvePackageErr {
    /// The error rendered for display.
    pub fn message(&self) -> (r: String)
        ensures
            match self {
                ResolvePackageErr::DependencyNotFound { dependency_name } => r@
                    =~= "Package "@ + dependency_name@
                        + " (maybe dependencies of the package) not found"@,
                ResolvePackageErr::ConflictWithDependencies { conflict, dependency_name } => r@
                    =~= conflict@ + " conflicts with "@ + dependency_name@,
            },
    {
        match self {
            ResolvePackageErr::DependencyNotFound { dependency_name } => {
                let out = String::from_str("Package ");
                let out = out.concat(dependency_name.as_str());
                let out = out.concat(" (maybe dependencies of the package) not found");
                out
            },
            ResolvePackageErr::ConflictWithDependencies { conflict, dependency_name } => {
                let out = conflict.clone();
                let out = out.concat(" conflicts with ");
                let out = out.concat(dependency_name.as_str());
                out
            },
        }
    }
}

/// What a successful resolution installed, in order: packages satisfying
/// locked entries, and packages newly required by unlocked packages.
#[derive(Debug)]
pub struct ResolveResult {
    pub installed_from_locked: Vec<PackageDescriptor>,
    pub installed_from_unlocked_dependencies: Vec<PackageDescriptor>,
}

impl ResolveResult {
    pub fn installed_from_locked(&self) -> (r: &Vec<PackageDescriptor>)
        ensures
            r == &self.installed_from_locked,
    {
        &self.installed_from_locked
    }

    pub fn installed_from_unlocked_dependencies(&self) -> (r: &Vec<PackageDescriptor>)
        ensures
            r == &self.installed_from_unlocked_dependencies,
    {
        &self.installed_from_unlocked_dependencies
    }
}

/// The names the unlocked packages' descriptors declare as their own.
pub open spec fn unlocked_desc_names(unl: Seq<DirEntryV>) -> Set<Seq<char>> {
    Set::new(|n: Seq<char>| exists|u: int|
        0 <= u < unl.len() && (#[trigger] unl[u]).descriptor is Some
            && unl[u].descriptor.unwrap().name == n)
}

/// Every dependency an unlocked descriptor declares is already present:
/// locked, or itself an unlocked package. A resolved project has nothing
/// left to fetch.
pub open spec fn project_resolved(m: Seq<EntryV>, unl: Seq<DirEntryV>) -> bool {
    forall|u: int, d: int|
        0 <= u < unl.len() && (#[trigger] unl[u]).descriptor is Some
            && 0 <= d < unl[u].descriptor.unwrap().dependencies.len()
        ==> has_entry(m, (#[trigger] unl[u].descriptor.unwrap().dependencies[d]).name)
            || unlocked_desc_names(unl).contains(unl[u].descriptor.unwrap().dependencies[d].name)
}

} // verus!
// The resolution pass.

verus! {

/// The views of a descriptor vector.
pub open spec fn descs_view(v: Seq<PackageDescriptor>) -> Seq<DescV> {
    Seq::new(v.len(), |i: int| v[i]@)
}

/// `d` is one of the packages the index offers.
pub open spec fn in_env(env: Seq<DescV>, d: DescV) -> bool {
    exists|e: int| 0 <= e < env.len() && env[e] == d
}

/// Every package the index offers carries a well-formed version.
pub open spec fn env_wf(env: Seq<DescV>) -> bool {
    forall|e: int| 0 <= e < env.len() ==> (#[trigger] env[e]).version.wf()
}

/// Copies a vector of range texts.
fn duplicate_texts(v: &Vec<Vec<u8>>) -> (r: Vec<Vec<u8>>)
    ensures
        r@.len() == v@.len(),
        forall|i: int| 0 <= i < v@.len() ==> #[trigger] r@[i]@ == v@[i]@,
{
    let mut out: Vec<Vec<u8>> = Vec::new();
    let mut i: usize = 0;
    while i < v.len()
        invariant
            i <= v@.len(),
            out@.len() == i,
            forall|j: int| 0 <= j < i ==> #[trigger] out@[j]@ == v@[j]@,
        decreases v@.len() - i,
    {
        let mut one: Vec<u8> = Vec::new();
        append_bytes(&mut one, &v[i]);
        out.push(one);
        i += 1;
    }
    out
}

/// Index of the descriptor named `n`, if one is present.
fn index_of_desc_name(v: &Vec<PackageDescriptor>, n: &String) -> (r: Option<usize>)
    ensures
        match r {
            Some(ci) => ci < v@.len() && v@[ci as int]@.name == n@,
            None => forall|j: int| 0 <= j < v@.len() ==> (#[trigger] v@[j])@.name != n@,
        },
{
    let mut i: usize = 0;
    while i < v.len()
        invariant
            i <= v@.len(),
            forall|j: int| 0 <= j < i ==> (#[trigger] v@[j])@.name != n@,
        decreases v@.len() - i,
    {
        if v[i].name.eq(n) {
            return Some(i);
        }
        i += 1;
    }
    None
}

/// Index of the name `n` in a name vector, if present.
fn index_of_name(v: &Vec<String>, n: &String) -> (r: Option<usize>)
    ensures
        match r {
            Some(ci) => ci < v@.len() && v@[ci as int]@ == n@,
            None => forall|j: int| 0 <= j < v@.len() ==> (#[trigger] v@[j])@ != n@,
        },
{
    let mut i: usize = 0;
    while i < v.len()
        invariant
            i <= v@.len(),
            forall|j: int| 0 <= j < i ==> (#[trigger] v@[j])@ != n@,
        decreases v@.len() - i,
    {
        if v[i].eq(n) {
            return Some(i);
        }
        i += 1;
    }
    None
}

/// Distinct names, each the name of some index package, are no more
/// numerous than the index.
/// The index offers a package named `n`.
pub open spec fn env_has_named(env: Seq<DescV>, n: Seq<char>) -> bool {
    exists|e: int| 0 <= e < env.len() && (#[trigger] env[e]).name == n
}

proof fn lemma_distinct_desc_names_bound(names: Seq<Seq<char>>, env: Seq<DescV>)
    requires
        forall|a: int, b: int| 0 <= a < b < names.len()
            ==> #[trigger] names[a] != #[trigger] names[b],
        forall|j: int| 0 <= j < names.len() ==> env_has_named(env, #[trigger] names[j]),
    ensures
        names.len() <= env.len(),
    decreases names.len(),
{
    if names.len() > 0 {
        let n = names.last();
        let i = choose|i: int| 0 <= i < env.len() && (#[trigger] env[i]).name == n;
        let ep = env.remove(i);
        let np = names.drop_last();
        assert(forall|a: int| 0 <= a < np.len() ==> #[trigger] np[a] == names[a]);
        assert forall|j: int| 0 <= j < np.len()
            implies env_has_named(ep, #[trigger] np[j]) by {
            let w = choose|w: int| 0 <= w < env.len() && (#[trigger] env[w]).name == np[j];
            assert(np[j] != n);
            assert(w != i);
            if w < i {
                assert(ep[w] == env[w]);
            } else {
                assert(ep[w - 1] == env[w]);
            }
        }
        lemma_distinct_desc_names_bound(np, ep);
    }
}

/// The dependency (`n`, `rng`) is declared by some unlocked descriptor.
pub open spec fn dep_declares(unl: Seq<DirEntryV>, n: Seq<char>, rng: Seq<u8>) -> bool {
    exists|up: int, dd: int|
        0 <= up < unl.len() && (#[trigger] unl[up]).descriptor is Some
            && 0 <= dd < unl[up].descriptor.unwrap().dependencies.len()
            && (#[trigger] unl[up].descriptor.unwrap().dependencies[dd]).name == n
            && unl[up].descriptor.unwrap().dependencies[dd].range == rng
}

/// The unlocked descriptor named `dn` declares a dependency on `n` with
/// range text `rng`.
pub open spec fn dep_declares_by(
    unl: Seq<DirEntryV>,
    dn: Seq<char>,
    n: Seq<char>,
    rng: Seq<u8>,
) -> bool {
    exists|up: int, dd: int|
        0 <= up < unl.len() && (#[trigger] unl[up]).descriptor is Some
            && unl[up].descriptor.unwrap().name == dn
            && 0 <= dd < unl[up].descriptor.unwrap().dependencies.len()
            && (#[trigger] unl[up].descriptor.unwrap().dependencies[dd]).name == n
            && unl[up].descriptor.unwrap().dependencies[dd].range == rng
}

/// Some requirer — an unlocked descriptor, or a package the index offers —
/// demands `n` with range text `rng`.
pub open spec fn required_range(
    unl: Seq<DirEntryV>,
    env: Seq<DescV>,
    n: Seq<char>,
    rng: Seq<u8>,
) -> bool {
    ||| dep_declares(unl, n, rng)
    ||| exists|e: int, dd: int|
        0 <= e < env.len() && 0 <= dd < (#[trigger] env[e]).dependencies.len()
            && (#[trigger] env[e].dependencies[dd]).name == n
            && env[e].dependencies[dd].range == rng
}

/// The requirer named `dn` — an unlocked descriptor, or a package the index
/// offers — demands `n` with range text `rng`.
pub open spec fn requires_with(
    unl: Seq<DirEntryV>,
    env: Seq<DescV>,
    dn: Seq<char>,
    n: Seq<char>,
    rng: Seq<u8>,
) -> bool {
    ||| dep_declares_by(unl, dn, n, rng)
    ||| exists|e: int, dd: int|
        0 <= e < env.len() && (#[trigger] env[e]).name == dn
            && 0 <= dd < env[e].dependencies.len()
            && (#[trigger] env[e].dependencies[dd]).name == n
            && env[e].dependencies[dd].range == rng
}

/// The groups hold only pending names, distinct, with ranges that some
/// unlocked descriptor declared for that name.
pub open spec fn groups_ok(
    m0: Seq<EntryV>,
    unl: Seq<DirEntryV>,
    gn: Seq<String>,
    gr: Seq<Vec<Vec<u8>>>,
    gq: Seq<Vec<String>>,
) -> bool {
    &&& gn.len() == gr.len()
    &&& gq.len() == gn.len()
    &&& forall|g: int| 0 <= g < gn.len() ==> (#[trigger] gq[g])@.len() == gr[g]@.len()
    &&& forall|a: int, b: int| 0 <= a < b < gn.len()
        ==> (#[trigger] gn[a])@ != (#[trigger] gn[b])@
    &&& forall|g: int| 0 <= g < gn.len()
        ==> !has_entry(m0, (#[trigger] gn[g])@)
            && !unlocked_desc_names(unl).contains(gn[g]@)
    &&& forall|g: int| 0 <= g < gn.len() ==> (#[trigger] gr[g])@.len() >= 1
    &&& forall|g: int, t: int| 0 <= g < gn.len() && 0 <= t < gr[g]@.len()
        ==> dep_declares(unl, gn[g]@, (#[trigger] gr[g]@[t])@)
    &&& forall|g: int, t: int| 0 <= g < gn.len() && 0 <= t < gr[g]@.len()
        ==> dep_declares_by(unl, gq[g]@[t]@, gn[g]@, (#[trigger] gr[g]@[t])@)
}

/// A group exists for `n` holding the range text `rng`.
pub open spec fn group_has(
    gn: Seq<String>,
    gr: Seq<Vec<Vec<u8>>>,
    n: Seq<char>,
    rng: Seq<u8>,
) -> bool {
    exists|g: int, t: int|
        0 <= g < gn.len() && gn[g]@ == n && 0 <= t < gr[g]@.len()
            && (#[trigger] gr[g]@[t])@ == rng
}

/// The requirement (`n`, `rng`) is met: locked already, an unlocked package
/// itself, or satisfied by a chosen package whose version the range admits.
pub open spec fn satisfied_by(
    m0: Seq<EntryV>,
    unl: Seq<DirEntryV>,
    n: Seq<char>,
    rng: Seq<u8>,
    chosen: Seq<PackageDescriptor>,
) -> bool {
    ||| has_entry(m0, n)
    ||| unlocked_desc_names(unl).contains(n)
    ||| exists|k: int| 0 <= k < chosen.len() && (#[trigger] chosen[k])@.name == n
        && range_text_matches(rng, chosen[k]@.version)
}


} // verus!
// The resolution pass, in stages, each verified on its own: match the lock,
// group the unmet requirements, select candidates, walk the closure, commit.

verus! {

/// The index offers a package with exactly this entry's name and version.
pub open spec fn has_exact(env: Seq<DescV>, entry: EntryV) -> bool {
    exists|e: int| 0 <= e < env.len() && (#[trigger] env[e]).name == entry.name
        && env[e].version == entry.version
}

/// Matches every locked entry exactly against the index, in manifest order.
#[verifier::loop_isolation(false)]
fn match_locked(
    manifest: &Manifest,
    env: &Environment,
) -> (r: Result<Vec<PackageDescriptor>, ResolvePackageErr>)
    requires
        manifest.wf(),
    ensures
        match r {
            Ok(v) => {
                &&& v@.len() == manifest@.len()
                &&& forall|q: int| 0 <= q < manifest@.len() ==> {
                    &&& ((#[trigger] v@[q])@).name == manifest@[q].name
                    &&& (v@[q])@.version == manifest@[q].version
                    &&& in_env(env@, (v@[q])@)
                }
            },
            Err(ResolvePackageErr::DependencyNotFound { dependency_name }) => exists|i: int|
                0 <= i < manifest@.len()
                    && (#[trigger] manifest@[i]).name == dependency_name@
                    && !has_exact(env@, manifest@[i])
                    && forall|ip: int| 0 <= ip < i ==> has_exact(env@, #[trigger] manifest@[ip]),
            Err(ResolvePackageErr::ConflictWithDependencies { .. }) => false,
        },
{
    let ghost m0 = manifest@;
    let ghost envv = env@;
    let mut out: Vec<PackageDescriptor> = Vec::new();
    let locked_len = manifest.all_locked().len();
    let mut i: usize = 0;
    while i < locked_len
        invariant
            i <= m0.len(),
            locked_len == m0.len(),
            out@.len() == i,
            forall|q: int| 0 <= q < i ==> {
                &&& ((#[trigger] out@[q])@).name == m0[q].name
                &&& (out@[q])@.version == m0[q].version
                &&& in_env(envv, (out@[q])@)
            },
        decreases m0.len() - i,
    {
        let locked_ref = manifest.all_locked();
        proof {
            assert(locked_ref@[i as int]@ == m0[i as int]);
        }
        let entry_name = locked_ref[i].name.clone();
        let entry_version = locked_ref[i].version.duplicate();
        proof {
            assert(entry_name@ == m0[i as int].name);
            assert(entry_version@ == m0[i as int].version);
        }
        let sel = VersionSelector::Specific { version: entry_version };
        match env.find_package_by_name(&entry_name, &sel) {
            Some(p) => {
                let ghost pv = p@;
                out.push(p.duplicate());
                proof {
                    assert(out@.last()@ =~= pv);
                }
            },
            None => {
                proof {
                    assert forall|e: int| 0 <= e < envv.len()
                        implies !((#[trigger] envv[e]).name == entry_name@
                            && envv[e].version == m0[i as int].version) by {
                        assert(!(envv[e].name == entry_name@
                            && selector_admits(sel@, envv[e])));
                    }
                    assert(!has_exact(envv, m0[i as int]));
                    assert forall|ip: int| 0 <= ip < i
                        implies has_exact(envv, #[trigger] m0[ip]) by {
                        assert(in_env(envv, out@[ip]@));
                        let e = choose|e: int| 0 <= e < envv.len()
                            && envv[e] == out@[ip]@;
                        assert(envv[e].name == m0[ip].name
                            && envv[e].version == m0[ip].version);
                    }
                }
                return Err(ResolvePackageErr::DependencyNotFound {
                    dependency_name: entry_name,
                });
            },
        }
        i += 1;
    }
    Ok(out)
}

/// The names the unlocked packages' descriptors declare as their own.
#[verifier::loop_isolation(false)]
fn collect_unlocked_names(unlocked: &Vec<DirEntry>) -> (r: Vec<String>)
    ensures
        forall|n: Seq<char>| crate::manifest::names_set(r@).contains(n)
            == unlocked_desc_names(dirs_view(unlocked@)).contains(n),
{
    let ghost unl = dirs_view(unlocked@);
    let mut out: Vec<String> = Vec::new();
    let mut u: usize = 0;
    while u < unlocked.len()
        invariant
            u <= unl.len(),
            unl == dirs_view(unlocked@),
            forall|a: int| 0 <= a < out@.len()
                ==> unlocked_desc_names(unl).contains(#[trigger] out@[a]@),
            forall|up: int| 0 <= up < u && (#[trigger] unl[up]).descriptor is Some
                ==> crate::manifest::names_set(out@).contains(
                    unl[up].descriptor.unwrap().name),
        decreases unl.len() - u,
    {
        match unlocked[u].descriptor {
            Some(ref d) => {
                let ghost prev = out@;
                out.push(d.name.clone());
                proof {
                    assert(out@.drop_last() =~= prev);
                    assert(out@.last()@ == unl[u as int].descriptor.unwrap().name);
                    assert(forall|a: int| 0 <= a < prev.len()
                        ==> #[trigger] out@[a] == prev[a]);
                    assert forall|up: int| 0 <= up <= u && (#[trigger] unl[up]).descriptor is Some
                        implies crate::manifest::names_set(out@).contains(
                            unl[up].descriptor.unwrap().name) by {
                        if up < u {
                            let w = choose|w: int| 0 <= w < prev.len()
                                && #[trigger] prev[w]@ == unl[up].descriptor.unwrap().name;
                            assert(out@[w]@ == unl[up].descriptor.unwrap().name);
                        } else {
                            assert(out@[out@.len() - 1]@
                                == unl[up].descriptor.unwrap().name);
                        }
                    }
                }
            },
            None => {},
        }
        u += 1;
    }
    proof {
        assert forall|n: Seq<char>|
            crate::manifest::names_set(out@).contains(n)
                == unlocked_desc_names(unl).contains(n) by {
            if crate::manifest::names_set(out@).contains(n) {
                let w = choose|w: int| 0 <= w < out@.len() && #[trigger] out@[w]@ == n;
            }
            if unlocked_desc_names(unl).contains(n) {
                let up = choose|up: int| 0 <= up < unl.len()
                    && (#[trigger] unl[up]).descriptor is Some
                    && unl[up].descriptor.unwrap().name == n;
            }
        }
    }
    out
}

} // verus!
// Grouping and candidate selection.

verus! {

/// Groups the unlocked packages' unmet dependencies by name, merging the
/// declared ranges of all requirers of one name.
#[verifier::loop_isolation(false)]
#[verifier::rlimit(40)]
fn build_groups(
    manifest: &Manifest,
    unlocked: &Vec<DirEntry>,
    unlocked_names: &Vec<String>,
) -> (r: (Vec<String>, Vec<Vec<Vec<u8>>>, Vec<Vec<String>>))
    requires
        manifest.wf(),
        forall|n: Seq<char>| crate::manifest::names_set(unlocked_names@).contains(n)
            == unlocked_desc_names(dirs_view(unlocked@)).contains(n),
    ensures
        groups_ok(manifest@, dirs_view(unlocked@), r.0@, r.1@, r.2@),
        forall|up: int, d: int|
            #![trigger dirs_view(unlocked@)[up].descriptor.unwrap().dependencies[d]]
            0 <= up < dirs_view(unlocked@).len()
                && dirs_view(unlocked@)[up].descriptor is Some
                && 0 <= d < dirs_view(unlocked@)[up].descriptor.unwrap().dependencies.len()
                && !has_entry(manifest@,
                    dirs_view(unlocked@)[up].descriptor.unwrap().dependencies[d].name)
                && !unlocked_desc_names(dirs_view(unlocked@)).contains(
                    dirs_view(unlocked@)[up].descriptor.unwrap().dependencies[d].name)
            ==> group_has(r.0@, r.1@,
                dirs_view(unlocked@)[up].descriptor.unwrap().dependencies[d].name,
                dirs_view(unlocked@)[up].descriptor.unwrap().dependencies[d].range),
        r.2@.len() == r.0@.len(),
        forall|g: int| 0 <= g < r.0@.len() ==> (#[trigger] r.2@[g])@.len() == r.1@[g]@.len(),
{
    let ghost m0 = manifest@;
    let ghost unl = dirs_view(unlocked@);
    let mut gnames: Vec<String> = Vec::new();
    let mut granges: Vec<Vec<Vec<u8>>> = Vec::new();
    let mut greqs: Vec<Vec<String>> = Vec::new();
    let mut u: usize = 0;
    while u < unlocked.len()
        invariant
            u <= unl.len(),
            unl == dirs_view(unlocked@),
            groups_ok(m0, unl, gnames@, granges@, greqs@),
            forall|up: int, d: int|
                #![trigger unl[up].descriptor.unwrap().dependencies[d]]
                0 <= up < u && unl[up].descriptor is Some
                    && 0 <= d < unl[up].descriptor.unwrap().dependencies.len()
                    && !has_entry(m0, unl[up].descriptor.unwrap().dependencies[d].name)
                    && !unlocked_desc_names(unl).contains(
                        unl[up].descriptor.unwrap().dependencies[d].name)
                ==> group_has(gnames@, granges@,
                    unl[up].descriptor.unwrap().dependencies[d].name,
                    unl[up].descriptor.unwrap().dependencies[d].range),
        decreases unl.len() - u,
    {
        let has_desc = match unlocked[u].descriptor {
            Some(_) => true,
            None => false,
        };
        if has_desc {
            let dep_count = match unlocked[u].descriptor {
                Some(ref desc) => desc.dependencies.len(),
                None => 0,
            };
            let mut d: usize = 0;
            while d < dep_count
                invariant
                    u < unl.len(),
                    unl[u as int].descriptor is Some,
                    dep_count == unl[u as int].descriptor.unwrap().dependencies.len(),
                    d <= dep_count,
                    unl == dirs_view(unlocked@),
                    groups_ok(m0, unl, gnames@, granges@, greqs@),
                    forall|up: int, dd: int|
                        #![trigger unl[up].descriptor.unwrap().dependencies[dd]]
                        0 <= up < unl.len() && unl[up].descriptor is Some
                            && 0 <= dd < unl[up].descriptor.unwrap().dependencies.len()
                            && (up < u || (up == u && dd < d))
                            && !has_entry(m0, unl[up].descriptor.unwrap()
                                .dependencies[dd].name)
                            && !unlocked_desc_names(unl).contains(
                                unl[up].descriptor.unwrap().dependencies[dd].name)
                        ==> group_has(gnames@, granges@,
                            unl[up].descriptor.unwrap().dependencies[dd].name,
                            unl[up].descriptor.unwrap().dependencies[dd].range),
                decreases dep_count - d,
            {
                let (dep_name, dep_range, requirer): (String, Vec<u8>, String) =
                    match unlocked[u].descriptor {
                    Some(ref desc) => {
                        let nm = desc.dependencies[d].name.clone();
                        let mut rg: Vec<u8> = Vec::new();
                        append_bytes(&mut rg, &desc.dependencies[d].range);
                        (nm, rg, desc.name.clone())
                    },
                    None => (String::new(), Vec::new(), String::new()),
                };
                proof {
                    assert(dep_name@
                        == unl[u as int].descriptor.unwrap().dependencies[d as int].name);
                    assert(dep_range@
                        == unl[u as int].descriptor.unwrap().dependencies[d as int].range);
                    assert(requirer@ == unl[u as int].descriptor.unwrap().name);
                }
                let skip_locked = manifest.is_locked(&dep_name);
                let skip_unlocked = crate::manifest::contains_string(unlocked_names, &dep_name);
                proof {
                    assert(skip_unlocked == unlocked_desc_names(unl).contains(dep_name@));
                }
                if !skip_locked && !skip_unlocked {
                    let ghost gn0 = gnames@;
                    let ghost gr0 = granges@;
                    let ghost gq0 = greqs@;
                    match index_of_name(&gnames, &dep_name) {
                        Some(g) => {
                            let mut cur = granges.remove(g);
                            cur.push(dep_range);
                            granges.insert(g, cur);
                            let mut curq = greqs.remove(g);
                            curq.push(requirer);
                            greqs.insert(g, curq);
                            proof {
                                assert(granges@.len() == gr0.len());
                                assert(forall|x: int| 0 <= x < gr0.len() && x != g
                                    ==> #[trigger] granges@[x] == gr0[x]);
                                assert(granges@[g as int]@.drop_last() =~= gr0[g as int]@);
                                assert(forall|t: int| 0 <= t < gr0[g as int]@.len()
                                    ==> #[trigger] granges@[g as int]@[t]
                                        == gr0[g as int]@[t]);
                                assert(granges@[g as int]@.last()@ == dep_range@);
                                assert(greqs@.len() == gq0.len());
                                assert(forall|x: int| 0 <= x < gq0.len() && x != g
                                    ==> #[trigger] greqs@[x] == gq0[x]);
                                assert(greqs@[g as int]@.drop_last() =~= gq0[g as int]@);
                                assert(forall|t: int| 0 <= t < gq0[g as int]@.len()
                                    ==> #[trigger] greqs@[g as int]@[t]
                                        == gq0[g as int]@[t]);
                                assert(greqs@[g as int]@.last()@ == requirer@);
                                assert(groups_ok(m0, unl, gnames@, granges@, greqs@)) by {
                                    assert forall|gg: int, t: int|
                                        0 <= gg < gnames@.len()
                                            && 0 <= t < granges@[gg]@.len()
                                        implies dep_declares(unl, gnames@[gg]@,
                                            (#[trigger] granges@[gg]@[t])@)
                                            && dep_declares_by(unl, greqs@[gg]@[t]@,
                                                gnames@[gg]@, granges@[gg]@[t]@) by {
                                        if gg == g && t == granges@[gg]@.len() - 1 {
                                            assert(dep_declares(unl, gnames@[gg]@,
                                                dep_range@));
                                            assert(dep_declares_by(unl, requirer@,
                                                gnames@[gg]@, dep_range@));
                                        } else if gg == g {
                                            assert(granges@[gg]@[t] == gr0[gg]@[t]);
                                            assert(greqs@[gg]@[t] == gq0[gg]@[t]);
                                        }
                                    }
                                }
                                assert(group_has(gnames@, granges@, dep_name@, dep_range@))
                                    by {
                                    assert(granges@[g as int]@[granges@[g as int]@.len() - 1]@
                                        == dep_range@);
                                }
                                assert forall|n: Seq<char>, rg: Seq<u8>|
                                    group_has(gn0, gr0, n, rg)
                                    implies #[trigger] group_has(gnames@, granges@, n, rg) by {
                                    let (gg, t): (int, int) = choose|gg: int, t: int|
                                        0 <= gg < gn0.len() && gn0[gg]@ == n
                                            && 0 <= t < gr0[gg]@.len()
                                            && (#[trigger] gr0[gg]@[t])@ == rg;
                                    if gg == g {
                                        assert(granges@[gg]@[t] == gr0[gg]@[t]);
                                    } else {
                                        assert(granges@[gg] == gr0[gg]);
                                    }
                                    assert((granges@[gg]@[t])@ == rg);
                                }
                            }
                        },
                        None => {
                            gnames.push(dep_name);
                            let mut one: Vec<Vec<u8>> = Vec::new();
                            one.push(dep_range);
                            granges.push(one);
                            let mut oneq: Vec<String> = Vec::new();
                            oneq.push(requirer);
                            greqs.push(oneq);
                            proof {
                                assert(gnames@.drop_last() =~= gn0);
                                assert(granges@.drop_last() =~= gr0);
                                assert(forall|x: int| 0 <= x < gn0.len()
                                    ==> #[trigger] gnames@[x] == gn0[x]);
                                assert(forall|x: int| 0 <= x < gr0.len()
                                    ==> #[trigger] granges@[x] == gr0[x]);
                                let gl = gn0.len() as int;
                                assert(gnames@[gl]@ == dep_name@);
                                assert(granges@[gl]@.len() == 1);
                                assert(granges@[gl]@[0]@ == dep_range@);
                                assert(greqs@.drop_last() =~= gq0);
                                assert(forall|x: int| 0 <= x < gq0.len()
                                    ==> #[trigger] greqs@[x] == gq0[x]);
                                assert(greqs@[gl]@.len() == 1);
                                assert(greqs@[gl]@[0]@ == requirer@);
                                assert(groups_ok(m0, unl, gnames@, granges@, greqs@)) by {
                                    assert forall|gg: int, t: int|
                                        0 <= gg < gnames@.len()
                                            && 0 <= t < granges@[gg]@.len()
                                        implies dep_declares(unl, gnames@[gg]@,
                                            (#[trigger] granges@[gg]@[t])@)
                                            && dep_declares_by(unl, greqs@[gg]@[t]@,
                                                gnames@[gg]@, granges@[gg]@[t]@) by {
                                        if gg == gl {
                                            assert(t == 0);
                                            assert(dep_declares(unl, dep_name@, dep_range@));
                                            assert(dep_declares_by(unl, requirer@,
                                                dep_name@, dep_range@));
                                        }
                                    }
                                }
                                assert(group_has(gnames@, granges@, dep_name@, dep_range@));
                                assert forall|n: Seq<char>, rg: Seq<u8>|
                                    group_has(gn0, gr0, n, rg)
                                    implies #[trigger] group_has(gnames@, granges@, n, rg) by {
                                    let (gg, t): (int, int) = choose|gg: int, t: int|
                                        0 <= gg < gn0.len() && gn0[gg]@ == n
                                            && 0 <= t < gr0[gg]@.len()
                                            && (#[trigger] gr0[gg]@[t])@ == rg;
                                    assert((granges@[gg]@[t])@ == rg);
                                }
                            }
                        },
                    }
                }
                d += 1;
            }
        }
        u += 1;
    }
    (gnames, granges, greqs)
}

/// The package satisfies some range actually required of its name.
pub open spec fn desc_justified(unl: Seq<DirEntryV>, env: Seq<DescV>, d: DescV) -> bool {
    exists|rng2: Seq<u8>|
        #![trigger required_range(unl, env, d.name, rng2)]
        required_range(unl, env, d.name, rng2) && range_text_matches(rng2, d.version)
}

/// The index package at `e` satisfies some range actually required of it.
pub open spec fn candidate_justified(unl: Seq<DirEntryV>, env: Seq<DescV>, e: int) -> bool {
    desc_justified(unl, env, env[e])
}

/// Witness for a missing dependency: `n` really is required under some
/// range, and no index package named `n` is a release, admissible for the
/// editor, and matching that range.
pub open spec fn not_found_witness(
    unl: Seq<DirEntryV>,
    env: Seq<DescV>,
    n: Seq<char>,
    editor: Option<UnityVersion>,
) -> bool {
    exists|rng: Seq<u8>|
        #![trigger required_range(unl, env, n, rng)]
        required_range(unl, env, n, rng)
            && forall|e: int| 0 <= e < env.len() && (#[trigger] env[e]).name == n
                ==> !(env[e].version.is_release() && unity_ok(env[e].unity, editor)
                    && range_text_matches(rng, env[e].version))
}

/// Witness for a conflict: `dn` really requires `c` under a range that an
/// index package named `c` — itself satisfying some range required of `c` —
/// fails.
pub open spec fn conflict_witness(
    unl: Seq<DirEntryV>,
    env: Seq<DescV>,
    c: Seq<char>,
    dn: Seq<char>,
) -> bool {
    exists|rng: Seq<u8>, e: int|
        #![trigger requires_with(unl, env, dn, c, rng), env[e].name]
        requires_with(unl, env, dn, c, rng) && 0 <= e < env.len() && env[e].name == c
            && !range_text_matches(rng, env[e].version) && candidate_justified(unl, env, e)
}

/// Selects the best candidate for each group under its merged ranges.
#[verifier::loop_isolation(false)]
fn select_groups(
    env: &Environment,
    gnames: &Vec<String>,
    granges: &Vec<Vec<Vec<u8>>>,
    greqs: &Vec<Vec<String>>,
    editor: Option<UnityVersion>,
    Ghost(unl): Ghost<Seq<DirEntryV>>,
) -> (r: Result<Vec<PackageDescriptor>, ResolvePackageErr>)
    requires
        gnames@.len() == granges@.len(),
        greqs@.len() == gnames@.len(),
        forall|g: int| 0 <= g < gnames@.len()
            ==> (#[trigger] greqs@[g])@.len() == granges@[g]@.len(),
        forall|g: int| 0 <= g < gnames@.len() ==> (#[trigger] granges@[g])@.len() >= 1,
        forall|g: int, t: int| 0 <= g < gnames@.len() && 0 <= t < granges@[g]@.len()
            ==> dep_declares(unl, gnames@[g]@, (#[trigger] granges@[g]@[t])@),
        forall|g: int, t: int| 0 <= g < gnames@.len() && 0 <= t < granges@[g]@.len()
            ==> dep_declares_by(unl, greqs@[g]@[t]@, gnames@[g]@,
                (#[trigger] granges@[g]@[t])@),
    ensures
        match r {
            Ok(v) => {
                &&& v@.len() == gnames@.len()
                &&& forall|j: int| 0 <= j < v@.len() ==> {
                    &&& in_env(env@, (#[trigger] v@[j])@)
                    &&& v@[j]@.name == gnames@[j]@
                    &&& unity_ok(v@[j]@.unity, editor)
                }
                &&& forall|j: int, t: int| 0 <= j < v@.len() && 0 <= t < granges@[j]@.len()
                    ==> range_text_matches((#[trigger] granges@[j]@[t])@, v@[j]@.version)
            },
            Err(ResolvePackageErr::DependencyNotFound { dependency_name }) => exists|g: int|
                0 <= g < gnames@.len() && (#[trigger] gnames@[g])@ == dependency_name@
                && not_found_witness(unl, env@, dependency_name@, editor),
            Err(ResolvePackageErr::ConflictWithDependencies { conflict, dependency_name }) =>
                exists|g: int| 0 <= g < gnames@.len()
                    && (#[trigger] gnames@[g])@ == conflict@
                    && conflict_witness(unl, env@, conflict@, dependency_name@),
        },
{
    let mut chosen: Vec<PackageDescriptor> = Vec::new();
    let mut g: usize = 0;
    while g < gnames.len()
        invariant
            g <= gnames@.len(),
            chosen@.len() == g,
            forall|j: int| 0 <= j < g ==> {
                &&& in_env(env@, (#[trigger] chosen@[j])@)
                &&& chosen@[j]@.name == gnames@[j]@
                &&& unity_ok(chosen@[j]@.unity, editor)
            },
            forall|j: int, t: int| 0 <= j < g && 0 <= t < granges@[j]@.len()
                ==> range_text_matches((#[trigger] granges@[j]@[t])@, chosen@[j]@.version),
        decreases gnames@.len() - g,
    {
        let ranges_copy = duplicate_texts(&granges[g]);
        let sel = VersionSelector::Ranges {
            ranges: ranges_copy,
            editor,
            allow_prerelease: false,
        };
        match env.find_package_by_name(&gnames[g], &sel) {
            Some(p) => {
                // Every requirer's own range must admit the chosen version;
                // a requirer it fails is in conflict with the one it was
                // chosen for.
                let mut t: usize = 0;
                while t < granges[g].len()
                    invariant
                        g < gnames@.len(),
                        t <= granges@[g as int]@.len(),
                        p@.name == gnames@[g as int]@,
                        in_env(env@, p@),
                        forall|x: int| 0 <= x < t ==> range_text_matches(
                            (#[trigger] granges@[g as int]@[x])@, p@.version),
                    decreases granges@[g as int]@.len() - t,
                {
                    if !crate::ranges::VersionRange::text_matches(
                        granges[g][t].as_slice(),
                        &p.version,
                    ) {
                        proof {
                            let gi = g as int;
                            let ti = t as int;
                            let rng = granges@[gi]@[ti]@;
                            let dn = greqs@[gi]@[ti]@;
                            assert(requires_with(unl, env@, dn, gnames@[gi]@, rng)) by {
                                assert(dep_declares_by(unl, dn, gnames@[gi]@, rng));
                            }
                            let e = choose|e: int| 0 <= e < env@.len()
                                && #[trigger] env@[e] == p@;
                            assert(candidate_justified(unl, env@, e)) by {
                                let i2 = choose|i2: int| 0 <= i2 < (sel@->ranges).len()
                                    && range_text_matches(#[trigger] (sel@->ranges)[i2],
                                        p@.version);
                                assert((sel@->ranges)[i2] == granges@[gi]@[i2]@);
                                assert(required_range(unl, env@, env@[e].name,
                                    granges@[gi]@[i2]@)) by {
                                    assert(dep_declares(unl, gnames@[gi]@,
                                        granges@[gi]@[i2]@));
                                }
                            }
                            assert(conflict_witness(unl, env@, gnames@[gi]@, dn)) by {
                                assert(requires_with(unl, env@, dn, gnames@[gi]@, rng)
                                    && 0 <= e < env@.len() && env@[e].name == gnames@[gi]@
                                    && !range_text_matches(rng, env@[e].version)
                                    && candidate_justified(unl, env@, e));
                            }
                        }
                        return Err(ResolvePackageErr::ConflictWithDependencies {
                            conflict: gnames[g].clone(),
                            dependency_name: greqs[g][t].clone(),
                        });
                    }
                    t += 1;
                }
                let ghost pv = p@;
                let ghost prev = chosen@;
                chosen.push(p.duplicate());
                proof {
                    assert(chosen@.drop_last() =~= prev);
                    assert(forall|x: int| 0 <= x < prev.len()
                        ==> #[trigger] chosen@[x] == prev[x]);
                    assert(chosen@[g as int]@ =~= pv);
                }
            },
            None => {
                proof {
                    let gi = g as int;
                    let rng = granges@[gi]@[0]@;
                    assert(required_range(unl, env@, gnames@[gi]@, rng)) by {
                        assert(dep_declares(unl, gnames@[gi]@, rng));
                    }
                    assert forall|e: int|
                        0 <= e < env@.len() && (#[trigger] env@[e]).name == gnames@[gi]@
                        implies !(env@[e].version.is_release()
                            && unity_ok(env@[e].unity, editor)
                            && range_text_matches(rng, env@[e].version)) by {
                        if env@[e].version.is_release() && unity_ok(env@[e].unity, editor)
                            && range_text_matches(rng, env@[e].version) {
                            assert((sel@->ranges)[0] == granges@[gi]@[0]@);
                            assert(selector_admits(sel@, env@[e]));
                            assert(false);
                        }
                    }
                    assert(not_found_witness(unl, env@, gnames@[gi]@, editor));
                }
                return Err(ResolvePackageErr::DependencyNotFound {
                    dependency_name: gnames[g].clone(),
                });
            },
        }
        g += 1;
    }
    Ok(chosen)
}

} // verus!
// Committing and the resolution pass itself.

verus! {

/// Locks every chosen package, appending to the manifest in order.
#[verifier::loop_isolation(false)]
fn commit_chosen(manifest: &mut Manifest, chosen: &Vec<PackageDescriptor>)
    requires
        old(manifest).wf(),
        forall|j: int| 0 <= j < chosen@.len() ==> (#[trigger] chosen@[j])@.version.wf(),
        forall|j: int| 0 <= j < chosen@.len()
            ==> !has_entry(old(manifest)@, (#[trigger] chosen@[j])@.name),
        forall|j1: int, j2: int| 0 <= j1 < j2 < chosen@.len()
            ==> (#[trigger] chosen@[j1])@.name != (#[trigger] chosen@[j2])@.name,
    ensures
        final(manifest).wf(),
        final(manifest)@.len() == old(manifest)@.len() + chosen@.len(),
        forall|x: int| 0 <= x < old(manifest)@.len()
            ==> #[trigger] final(manifest)@[x] == old(manifest)@[x],
        forall|q: int| 0 <= q < chosen@.len() ==> {
            &&& (#[trigger] final(manifest)@[old(manifest)@.len() + q]).name
                == chosen@[q]@.name
            &&& final(manifest)@[old(manifest)@.len() + q].version == chosen@[q]@.version
            &&& final(manifest)@[old(manifest)@.len() + q].dependencies
                == chosen@[q]@.dependencies
        },
{
    let ghost m0 = manifest@;
    let mut cj: usize = 0;
    while cj < chosen.len()
        invariant
            cj <= chosen@.len(),
            manifest.wf(),
            manifest@.len() == m0.len() + cj,
            forall|x: int| 0 <= x < m0.len() ==> #[trigger] manifest@[x] == m0[x],
            forall|q: int| 0 <= q < cj ==> {
                &&& (#[trigger] manifest@[m0.len() + q]).name == chosen@[q]@.name
                &&& manifest@[m0.len() + q].version == chosen@[q]@.version
                &&& manifest@[m0.len() + q].dependencies == chosen@[q]@.dependencies
            },
        decreases chosen@.len() - cj,
    {
        let name = chosen[cj].name.clone();
        let version = chosen[cj].version.duplicate();
        let deps = duplicate_deps(&chosen[cj].dependencies);
        proof {
            assert(!has_entry(manifest@, name@)) by {
                if has_entry(manifest@, name@) {
                    let x = choose|x: int| 0 <= x < manifest@.len()
                        && (#[trigger] manifest@[x]).name == name@;
                    if x < m0.len() {
                        assert(has_entry(m0, name@));
                    } else {
                        assert(manifest@[m0.len() + (x - m0.len())].name
                            == chosen@[x - m0.len()]@.name);
                        assert(chosen@[x - m0.len()]@.name == name@);
                    }
                    assert(false);
                }
            }
        }
        let ghost before = manifest@;
        manifest.set_locked(name, version, deps);
        proof {
            assert(manifest@ =~= before.push(EntryV {
                name: chosen@[cj as int]@.name,
                version: chosen@[cj as int]@.version,
                dependencies: chosen@[cj as int]@.dependencies,
            }));
        }
        cj += 1;
    }
}

impl UnityProject {
    /// Resolves the project against the index snapshot.
    ///
    /// First every locked entry is matched exactly (a locked version must
    /// exist in the index). Then the unlocked packages' unmet dependencies
    /// are grouped by name; for each group the highest candidate admitted by
    /// any of its merged ranges is selected and then held against every
    /// requirer's own range — a requirer whose range the selection fails is
    /// reported as a conflict (a version satisfying all ranges but not
    /// maximal for any single one is not searched for). Each candidate's own
    /// dependencies are resolved in turn the same way, checking every new
    /// requirement against the already-chosen version. A selected
    /// pre-release candidate relaxes pre-release admissibility for the rest
    /// of the closure. Only when the whole closure resolves is anything
    /// committed to the manifest; a failed resolution leaves the project
    /// untouched. The caller materializes the returned packages on disk.
    #[verifier::loop_isolation(false)]
    #[verifier::rlimit(100)]
    pub fn resolve(&mut self, env: &Environment) -> (r: Result<ResolveResult, ResolvePackageErr>)
        requires
            old(self).wf(),
            env_wf(env@),
        ensures
            final(self).wf(),
            final(self).unlocked_packages@ == old(self).unlocked_packages@,
            final(self).installed_packages@ == old(self).installed_packages@,
            final(self).unity_version == old(self).unity_version,
            final(self).project_dir == old(self).project_dir,
            r is Err ==> final(self).manifest@ == old(self).manifest@,
            (exists|i: int| 0 <= i < old(self).manifest@.len()
                && !has_exact(env@, #[trigger] old(self).manifest@[i]))
                ==> (match r {
                    Err(ResolvePackageErr::DependencyNotFound { dependency_name }) =>
                        has_entry(old(self).manifest@, dependency_name@),
                    _ => false,
                }),
            ({
                let m0 = old(self).manifest@;
                let unl = dirs_view(old(self).unlocked_packages@);
                match r {
                    Ok(res) => {
                        let lockedv = descs_view(res.installed_from_locked@);
                        let chosen = descs_view(res.installed_from_unlocked_dependencies@);
                        let mfin = final(self).manifest@;
                        &&& lockedv.len() == m0.len()
                        &&& forall|i: int| 0 <= i < m0.len() ==> {
                            &&& (#[trigger] lockedv[i]).name == m0[i].name
                            &&& lockedv[i].version == m0[i].version
                            &&& in_env(env@, lockedv[i])
                        }
                        &&& forall|j: int| 0 <= j < chosen.len() ==> {
                            &&& in_env(env@, #[trigger] chosen[j])
                            &&& !has_entry(m0, chosen[j].name)
                            &&& !unlocked_desc_names(unl).contains(chosen[j].name)
                        }
                        &&& forall|j1: int, j2: int| 0 <= j1 < j2 < chosen.len()
                            ==> (#[trigger] chosen[j1]).name != (#[trigger] chosen[j2]).name
                        &&& mfin.len() == m0.len() + chosen.len()
                        &&& forall|i: int| 0 <= i < m0.len() ==> #[trigger] mfin[i] == m0[i]
                        &&& forall|j: int| 0 <= j < chosen.len() ==> {
                            &&& (#[trigger] mfin[m0.len() + j]).name == chosen[j].name
                            &&& mfin[m0.len() + j].version == chosen[j].version
                            &&& mfin[m0.len() + j].dependencies == chosen[j].dependencies
                        }
                        &&& project_resolved(mfin, unl)
                        &&& forall|j: int| 0 <= j < chosen.len()
                            ==> unity_ok((#[trigger] chosen[j]).unity, old(self).unity_version)
                        &&& forall|j: int, dd: int, k: int|
                            0 <= j < chosen.len()
                                && 0 <= dd < (#[trigger] chosen[j]).dependencies.len()
                                && 0 <= k < chosen.len()
                                && (#[trigger] chosen[j].dependencies[dd]).name
                                    == (#[trigger] chosen[k]).name
                            ==> range_text_matches(chosen[j].dependencies[dd].range,
                                chosen[k].version)
                        &&& forall|u: int, d: int, j: int|
                            0 <= u < unl.len() && (#[trigger] unl[u]).descriptor is Some
                                && 0 <= d < unl[u].descriptor.unwrap().dependencies.len()
                                && 0 <= j < chosen.len()
                                && (#[trigger] unl[u].descriptor.unwrap().dependencies[d]).name
                                    == (#[trigger] chosen[j]).name
                            ==> range_text_matches(
                                unl[u].descriptor.unwrap().dependencies[d].range,
                                chosen[j].version,
                            )
                        &&& forall|j: int, dd: int|
                            0 <= j < chosen.len()
                                && 0 <= dd < (#[trigger] chosen[j]).dependencies.len()
                            ==> has_entry(mfin, (#[trigger] chosen[j].dependencies[dd]).name)
                                || unlocked_desc_names(unl).contains(
                                    chosen[j].dependencies[dd].name)
                        &&& (project_resolved(m0, unl) ==> chosen.len() == 0 && mfin =~= m0)
                    },
                    Err(ResolvePackageErr::DependencyNotFound { dependency_name }) => {
                        &&& has_entry(m0, dependency_name@) ==> exists|i: int|
                            0 <= i < m0.len() && (#[trigger] m0[i]).name == dependency_name@
                            && !has_exact(env@, m0[i])
                            && forall|ip: int| 0 <= ip < i
                                ==> has_exact(env@, #[trigger] m0[ip])
                        &&& !has_entry(m0, dependency_name@)
                            ==> not_found_witness(unl, env@, dependency_name@,
                                old(self).unity_version)
                    },
                    Err(ResolvePackageErr::ConflictWithDependencies {
                        conflict,
                        dependency_name,
                    }) => {
                        &&& !has_entry(m0, conflict@)
                        &&& !unlocked_desc_names(unl).contains(conflict@)
                        &&& conflict_witness(unl, env@, conflict@, dependency_name@)
                    },
                }
            }),
    {
        let ghost m0 = self.manifest@;
        let ghost unl = dirs_view(self.unlocked_packages@);
        let ghost envv = env@;
        proof {
            assert(env_wf(envv));
        }

        // Phase A: satisfy the lock.
        let installed_from_locked = match match_locked(&self.manifest, env) {
            Ok(v) => v,
            Err(e) => {
                return Err(e);
            },
        };
        proof {
            assert forall|i: int| 0 <= i < m0.len()
                implies has_exact(envv, #[trigger] m0[i]) by {
                assert(in_env(envv, installed_from_locked@[i]@));
                let e = choose|e: int| 0 <= e < envv.len()
                    && envv[e] == installed_from_locked@[i]@;
                assert(envv[e].name == m0[i].name && envv[e].version == m0[i].version);
            }
        }

        // Phase B: group the unmet requirements and select candidates.
        let unlocked_names = collect_unlocked_names(&self.unlocked_packages);
        let (gnames, granges, greqs) = build_groups(&self.manifest, &self.unlocked_packages,
            &unlocked_names);
        let mut chosen = match select_groups(env, &gnames, &granges, &greqs,
            self.unity_version, Ghost(unl)) {
            Ok(v) => v,
            Err(e) => {
                proof {
                    match &e {
                        ResolvePackageErr::DependencyNotFound { dependency_name } => {
                            let g = choose|g: int| 0 <= g < gnames@.len()
                                && (#[trigger] gnames@[g])@ == dependency_name@;
                            assert(!has_entry(m0, dependency_name@));
                        },
                        ResolvePackageErr::ConflictWithDependencies { conflict, .. } => {
                            let g = choose|g: int| 0 <= g < gnames@.len()
                                && (#[trigger] gnames@[g])@ == conflict@;
                            assert(!has_entry(m0, conflict@));
                            assert(!unlocked_desc_names(unl).contains(conflict@));
                        },
                    }
                }
                return Err(e);
            },
        };

        // If the project was already resolved there was nothing to group.
        proof {
            if project_resolved(m0, unl) {
                assert(gnames@.len() == 0) by {
                    if gnames@.len() > 0 {
                        assert(dep_declares(unl, gnames@[0]@, granges@[0]@[0]@)) by {
                            assert(granges@[0]@.len() >= 1);
                        }
                        let (up, dd): (int, int) = choose|up: int, dd: int|
                            0 <= up < unl.len() && (#[trigger] unl[up]).descriptor is Some
                                && 0 <= dd < unl[up].descriptor.unwrap().dependencies.len()
                                && (#[trigger] unl[up].descriptor.unwrap().dependencies[dd]).name
                                    == gnames@[0]@
                                && unl[up].descriptor.unwrap().dependencies[dd].range
                                    == granges@[0]@[0]@;
                        assert(false);
                    }
                }
            }
        }

        // Every unmet requirement of an unlocked package is now satisfied by
        // its group's chosen package.
        proof {
            assert forall|uu: int, dd: int|
                0 <= uu < unl.len() && (#[trigger] unl[uu]).descriptor is Some
                    && 0 <= dd < unl[uu].descriptor.unwrap().dependencies.len()
                implies satisfied_by(m0, unl,
                    (#[trigger] unl[uu].descriptor.unwrap().dependencies[dd]).name,
                    unl[uu].descriptor.unwrap().dependencies[dd].range, chosen@) by {
                let n = unl[uu].descriptor.unwrap().dependencies[dd].name;
                let rg = unl[uu].descriptor.unwrap().dependencies[dd].range;
                if !has_entry(m0, n) && !unlocked_desc_names(unl).contains(n) {
                    assert(group_has(gnames@, granges@, n, rg));
                    let (gg, t): (int, int) = choose|gg: int, t: int|
                        0 <= gg < gnames@.len() && gnames@[gg]@ == n
                            && 0 <= t < granges@[gg]@.len()
                            && (#[trigger] granges@[gg]@[t])@ == rg;
                    assert(chosen@[gg]@.name == n);
                    assert(range_text_matches(rg, chosen@[gg]@.version));
                }
            }
            let names1 = Seq::new(chosen@.len(), |x: int| chosen@[x]@.name);
            assert forall|a: int, b: int| 0 <= a < b < names1.len()
                implies #[trigger] names1[a] != #[trigger] names1[b] by {
                assert(chosen@[a]@.name == gnames@[a]@);
                assert(chosen@[b]@.name == gnames@[b]@);
            }
            assert forall|j: int| 0 <= j < names1.len()
                implies env_has_named(envv, #[trigger] names1[j]) by {
                assert(in_env(envv, chosen@[j]@));
                let e = choose|e: int| 0 <= e < envv.len() && envv[e] == chosen@[j]@;
                assert(envv[e].name == names1[j]);
            }
            lemma_distinct_desc_names_bound(names1, envv);
        }

        // Each chosen candidate passed the editor gate and satisfies a range
        // actually required of its name.
        proof {
            assert forall|j: int| 0 <= j < chosen@.len()
                implies desc_justified(unl, envv, (#[trigger] chosen@[j])@) by {
                assert(range_text_matches(granges@[j]@[0]@, chosen@[j]@.version));
                assert(dep_declares(unl, gnames@[j]@, granges@[j]@[0]@));
                assert(required_range(unl, envv, chosen@[j]@.name, granges@[j]@[0]@));
            }
        }

        // Pre-release candidates chosen directly relax admissibility for
        // the rest of the closure.
        let mut allow_prerelease = false;
        let mut ap: usize = 0;
        while ap < chosen.len()
            invariant
                ap <= chosen@.len(),
            decreases chosen@.len() - ap,
        {
            if !chosen[ap].version.is_release() {
                allow_prerelease = true;
            }
            ap += 1;
        }

        // Walk the closure: resolve each chosen package's own unmet
        // dependencies, checking every new requirement against the version
        // already chosen for that name.
        let mut w: usize = 0;
        while w < chosen.len()
            invariant
                w <= chosen@.len(),
                unl == dirs_view(self.unlocked_packages@),
                self.manifest@ == m0,
                chosen@.len() <= envv.len(),
                forall|j: int| 0 <= j < chosen@.len() ==> {
                    &&& in_env(envv, (#[trigger] chosen@[j])@)
                    &&& !has_entry(m0, chosen@[j]@.name)
                    &&& !unlocked_desc_names(unl).contains(chosen@[j]@.name)
                },
                forall|j1: int, j2: int| 0 <= j1 < j2 < chosen@.len()
                    ==> (#[trigger] chosen@[j1])@.name != (#[trigger] chosen@[j2])@.name,
                forall|uu: int, dd: int|
                    #![trigger unl[uu].descriptor.unwrap().dependencies[dd]]
                    0 <= uu < unl.len() && unl[uu].descriptor is Some
                        && 0 <= dd < unl[uu].descriptor.unwrap().dependencies.len()
                    ==> satisfied_by(m0, unl,
                        unl[uu].descriptor.unwrap().dependencies[dd].name,
                        unl[uu].descriptor.unwrap().dependencies[dd].range, chosen@),
                forall|j: int, dd: int| 0 <= j < w
                    && 0 <= dd < (#[trigger] chosen@[j])@.dependencies.len()
                    ==> has_entry(m0, (#[trigger] chosen@[j]@.dependencies[dd]).name)
                        || unlocked_desc_names(unl).contains(chosen@[j]@.dependencies[dd].name)
                        || (exists|k: int| 0 <= k < chosen@.len()
                            && (#[trigger] chosen@[k])@.name
                                == chosen@[j]@.dependencies[dd].name),
                forall|j: int| 0 <= j < chosen@.len()
                    ==> unity_ok((#[trigger] chosen@[j])@.unity, self.unity_version),
                forall|j: int| 0 <= j < chosen@.len()
                    ==> desc_justified(unl, envv, (#[trigger] chosen@[j])@),
                forall|j: int, ddd: int, k: int|
                    0 <= j < chosen@.len()
                        && 0 <= ddd < (#[trigger] chosen@[j])@.dependencies.len()
                        && j < w
                        && 0 <= k < chosen@.len()
                        && (#[trigger] chosen@[j]@.dependencies[ddd]).name
                            == (#[trigger] chosen@[k])@.name
                    ==> range_text_matches(chosen@[j]@.dependencies[ddd].range,
                        chosen@[k]@.version),
                project_resolved(m0, unl) ==> chosen@.len() == 0,
            decreases envv.len() - w,
        {
            let dep_count = chosen[w].dependencies.len();
            let mut dd: usize = 0;
            while dd < dep_count
                invariant
                    w < chosen@.len(),
                    dd <= dep_count,
                    dep_count == chosen@[w as int]@.dependencies.len(),
                    unl == dirs_view(self.unlocked_packages@),
                    self.manifest@ == m0,
                    chosen@.len() <= envv.len(),
                    forall|j: int| 0 <= j < chosen@.len() ==> {
                        &&& in_env(envv, (#[trigger] chosen@[j])@)
                        &&& !has_entry(m0, chosen@[j]@.name)
                        &&& !unlocked_desc_names(unl).contains(chosen@[j]@.name)
                    },
                    forall|j1: int, j2: int| 0 <= j1 < j2 < chosen@.len()
                        ==> (#[trigger] chosen@[j1])@.name != (#[trigger] chosen@[j2])@.name,
                    forall|uu: int, ddd: int|
                        #![trigger unl[uu].descriptor.unwrap().dependencies[ddd]]
                        0 <= uu < unl.len() && unl[uu].descriptor is Some
                            && 0 <= ddd < unl[uu].descriptor.unwrap().dependencies.len()
                        ==> satisfied_by(m0, unl,
                            unl[uu].descriptor.unwrap().dependencies[ddd].name,
                            unl[uu].descriptor.unwrap().dependencies[ddd].range, chosen@),
                    forall|j: int, ddd: int| 0 <= j < w
                        && 0 <= ddd < (#[trigger] chosen@[j])@.dependencies.len()
                        ==> has_entry(m0, (#[trigger] chosen@[j]@.dependencies[ddd]).name)
                            || unlocked_desc_names(unl).contains(
                                chosen@[j]@.dependencies[ddd].name)
                            || (exists|k: int| 0 <= k < chosen@.len()
                                && (#[trigger] chosen@[k])@.name
                                    == chosen@[j]@.dependencies[ddd].name),
                    forall|ddd: int| 0 <= ddd < dd
                        ==> has_entry(m0, (#[trigger] chosen@[w as int]@.dependencies[ddd]).name)
                            || unlocked_desc_names(unl).contains(
                                chosen@[w as int]@.dependencies[ddd].name)
                            || (exists|k: int| 0 <= k < chosen@.len()
                                && (#[trigger] chosen@[k])@.name
                                    == chosen@[w as int]@.dependencies[ddd].name),
                    forall|j: int| 0 <= j < chosen@.len()
                        ==> unity_ok((#[trigger] chosen@[j])@.unity, self.unity_version),
                    forall|j: int| 0 <= j < chosen@.len()
                        ==> desc_justified(unl, envv, (#[trigger] chosen@[j])@),
                    forall|j: int, ddd: int, k: int|
                        0 <= j < chosen@.len()
                            && 0 <= ddd < (#[trigger] chosen@[j])@.dependencies.len()
                            && (j < w || (j == w && ddd < dd))
                            && 0 <= k < chosen@.len()
                            && (#[trigger] chosen@[j]@.dependencies[ddd]).name
                                == (#[trigger] chosen@[k])@.name
                        ==> range_text_matches(chosen@[j]@.dependencies[ddd].range,
                            chosen@[k]@.version),
                    project_resolved(m0, unl) ==> chosen@.len() == 0,
                decreases dep_count - dd,
            {
                let ghost lb = chosen@.len();
                let n = chosen[w].dependencies[dd].name.clone();
                let mut rng: Vec<u8> = Vec::new();
                append_bytes(&mut rng, &chosen[w].dependencies[dd].range);
                proof {
                    assert(n@ == chosen@[w as int]@.dependencies[dd as int].name);
                    assert(rng@ == chosen@[w as int]@.dependencies[dd as int].range);
                }
                let skip_locked = self.manifest.is_locked(&n);
                let skip_unlocked = crate::manifest::contains_string(&unlocked_names, &n);
                proof {
                    assert(skip_unlocked == unlocked_desc_names(unl).contains(n@));
                }
                if !skip_locked && !skip_unlocked {
                    match index_of_desc_name(&chosen, &n) {
                        Some(ci) => {
                            let ok = crate::ranges::VersionRange::text_matches(
                                rng.as_slice(),
                                &chosen[ci].version,
                            );
                            if !ok {
                                proof {
                                    // the requirer really declares this range, through
                                    // its own index entry
                                    let ew = choose|ew: int| 0 <= ew < envv.len()
                                        && envv[ew] == chosen@[w as int]@;
                                    assert(envv[ew].name == chosen@[w as int]@.name);
                                    assert(envv[ew].dependencies[dd as int].name == n@);
                                    assert(requires_with(unl, envv,
                                        chosen@[w as int]@.name, n@, rng@));
                                    // and the chosen candidate, itself justified,
                                    // fails it
                                    let ec = choose|ec: int| 0 <= ec < envv.len()
                                        && envv[ec] == chosen@[ci as int]@;
                                    assert(envv[ec].name == n@);
                                    assert(!range_text_matches(rng@, envv[ec].version));
                                    assert(desc_justified(unl, envv, chosen@[ci as int]@));
                                    assert(candidate_justified(unl, envv, ec));
                                    assert(conflict_witness(unl, envv, n@,
                                        chosen@[w as int]@.name));
                                }
                                return Err(ResolvePackageErr::ConflictWithDependencies {
                                    conflict: n,
                                    dependency_name: chosen[w].name.clone(),
                                });
                            }
                            proof {
                                assert forall|k: int| 0 <= k < chosen@.len()
                                    && (#[trigger] chosen@[k])@.name == n@
                                    implies range_text_matches(rng@,
                                        chosen@[k]@.version) by {
                                    if k != ci as int {
                                        assert(chosen@[ci as int]@.name == n@);
                                        assert(false);
                                    }
                                }
                            }
                        },
                        None => {
                            let mut one_range: Vec<Vec<u8>> = Vec::new();
                            one_range.push(rng);
                            let sel = VersionSelector::Ranges {
                                ranges: one_range,
                                editor: self.unity_version,
                                allow_prerelease,
                            };
                            match env.find_package_by_name(&n, &sel) {
                                Some(p) => {
                                    let ghost pv = p@;
                                    let ghost prev = chosen@;
                                    chosen.push(p.duplicate());
                                    proof {
                                        assert(chosen@.drop_last() =~= prev);
                                        assert(forall|x: int| 0 <= x < prev.len()
                                            ==> #[trigger] chosen@[x] == prev[x]);
                                        assert(chosen@[chosen@.len() - 1]@ =~= pv);
                                        assert(pv.name == n@);
                                        let names2 = Seq::new(chosen@.len(),
                                            |x: int| chosen@[x]@.name);
                                        assert forall|j: int| 0 <= j < names2.len()
                                            implies env_has_named(envv, #[trigger] names2[j])
                                            by {
                                            assert(in_env(envv, chosen@[j]@));
                                            let e = choose|e: int| 0 <= e < envv.len()
                                                && envv[e] == chosen@[j]@;
                                            assert(envv[e].name == names2[j]);
                                        }
                                        assert forall|a: int, b: int|
                                            0 <= a < b < names2.len()
                                            implies #[trigger] names2[a]
                                                != #[trigger] names2[b] by {
                                            assert(chosen@[a]@.name == names2[a]);
                                            assert(chosen@[b]@.name == names2[b]);
                                        }
                                        lemma_distinct_desc_names_bound(names2, envv);
                                        assert forall|uu: int, ddd: int|
                                            0 <= uu < unl.len()
                                                && (#[trigger] unl[uu]).descriptor is Some
                                                && 0 <= ddd < unl[uu].descriptor.unwrap()
                                                    .dependencies.len()
                                            implies satisfied_by(m0, unl,
                                                (#[trigger] unl[uu].descriptor.unwrap()
                                                    .dependencies[ddd]).name,
                                                unl[uu].descriptor.unwrap()
                                                    .dependencies[ddd].range,
                                                chosen@) by {
                                            assert(satisfied_by(m0, unl,
                                                unl[uu].descriptor.unwrap()
                                                    .dependencies[ddd].name,
                                                unl[uu].descriptor.unwrap()
                                                    .dependencies[ddd].range, prev));
                                            let nn = unl[uu].descriptor.unwrap()
                                                .dependencies[ddd].name;
                                            let rr = unl[uu].descriptor.unwrap()
                                                .dependencies[ddd].range;
                                            if !has_entry(m0, nn)
                                                && !unlocked_desc_names(unl).contains(nn) {
                                                let k = choose|k: int| 0 <= k < prev.len()
                                                    && (#[trigger] prev[k])@.name == nn
                                                    && range_text_matches(rr, prev[k]@.version);
                                                assert(chosen@[k]@.name == nn);
                                            }
                                        }
                                        // the new candidate was admitted under
                                        // exactly this requirement
                                        let li = chosen@.len() - 1;
                                        assert((sel@->ranges)[0] == rng@);
                                        assert(range_text_matches(rng@, pv.version)) by {
                                            let i2 = choose|i2: int|
                                                0 <= i2 < (sel@->ranges).len()
                                                && range_text_matches(
                                                    #[trigger] (sel@->ranges)[i2], pv.version);
                                            assert(i2 == 0);
                                        }
                                        assert(unity_ok(pv.unity, self.unity_version));
                                        assert(desc_justified(unl, envv, chosen@[li]@)) by {
                                            let ew = choose|ew: int| 0 <= ew < envv.len()
                                                && envv[ew] == chosen@[w as int]@;
                                            assert(envv[ew].dependencies[dd as int].name
                                                == n@);
                                            assert(envv[ew].dependencies[dd as int].range
                                                == rng@);
                                            assert(required_range(unl, envv, n@, rng@));
                                        }
                                        // every chosen package named by this
                                        // requirement satisfies it
                                        assert forall|k: int| 0 <= k < chosen@.len()
                                            && (#[trigger] chosen@[k])@.name == n@
                                            implies range_text_matches(rng@,
                                                chosen@[k]@.version) by {
                                            if k < prev.len() {
                                                assert(prev[k]@.name != n@);
                                                assert(false);
                                            }
                                        }
                                        // and no requirement processed earlier
                                        // names the new package
                                        assert forall|j: int, ddd: int|
                                            0 <= j < prev.len()
                                                && 0 <= ddd < (#[trigger] prev[j])@
                                                    .dependencies.len()
                                                && (j < w || (j == w && ddd < dd))
                                                && (#[trigger] prev[j]@.dependencies[ddd])
                                                    .name == n@
                                            implies false by {
                                            assert(has_entry(m0, n@)
                                                || unlocked_desc_names(unl).contains(n@)
                                                || exists|k2: int| 0 <= k2 < prev.len()
                                                    && (#[trigger] prev[k2])@.name == n@);
                                            if exists|k2: int| 0 <= k2 < prev.len()
                                                && (#[trigger] prev[k2])@.name == n@ {
                                                let k2 = choose|k2: int|
                                                    0 <= k2 < prev.len()
                                                    && (#[trigger] prev[k2])@.name == n@;
                                                assert(false);
                                            }
                                        }
                                    }
                                },
                                None => {
                                    proof {
                                        let ew = choose|ew: int| 0 <= ew < envv.len()
                                            && envv[ew] == chosen@[w as int]@;
                                        assert(envv[ew].dependencies[dd as int].name == n@);
                                        assert(required_range(unl, envv, n@, rng@));
                                        assert forall|e: int| 0 <= e < envv.len()
                                            && (#[trigger] envv[e]).name == n@
                                            implies !(envv[e].version.is_release()
                                                && unity_ok(envv[e].unity, self.unity_version)
                                                && range_text_matches(rng@,
                                                    envv[e].version)) by {
                                            if envv[e].version.is_release()
                                                && unity_ok(envv[e].unity, self.unity_version)
                                                && range_text_matches(rng@, envv[e].version) {
                                                assert((sel@->ranges)[0] == rng@);
                                                assert(selector_admits(sel@, envv[e]));
                                                assert(false);
                                            }
                                        }
                                        assert(not_found_witness(unl, envv, n@,
                                            self.unity_version));
                                    }
                                    return Err(ResolvePackageErr::DependencyNotFound {
                                        dependency_name: n,
                                    });
                                },
                            }
                        },
                    }
                } else {
                    proof {
                        assert forall|k: int| 0 <= k < chosen@.len()
                            && (#[trigger] chosen@[k])@.name == n@
                            implies range_text_matches(rng@, chosen@[k]@.version) by {
                            assert(!has_entry(m0, chosen@[k]@.name));
                            assert(!unlocked_desc_names(unl).contains(chosen@[k]@.name));
                            assert(false);
                        }
                    }
                }
                proof {
                    assert forall|j: int, ddd: int, k: int|
                        0 <= j < chosen@.len()
                            && 0 <= ddd < (#[trigger] chosen@[j])@.dependencies.len()
                            && (j < w || (j == w && ddd < dd + 1))
                            && 0 <= k < chosen@.len()
                            && (#[trigger] chosen@[j]@.dependencies[ddd]).name
                                == (#[trigger] chosen@[k])@.name
                        implies range_text_matches(chosen@[j]@.dependencies[ddd].range,
                            chosen@[k]@.version) by {
                        if j == w as int && ddd == dd as int {
                            assert(chosen@[j]@.dependencies[ddd].name == n@);
                            assert(chosen@[j]@.dependencies[ddd].range == rng@);
                        } else {
                            if k >= lb {
                                assert(chosen@[k]@.name == n@);
                            }
                        }
                    }
                }
                dd += 1;
            }
            w += 1;
        }

        // Commit: lock every chosen package, then report what to install.
        let ghost chosenv = chosen@;
        proof {
            assert forall|j: int| 0 <= j < chosenv.len()
                implies (#[trigger] chosenv[j])@.version.wf() by {
                assert(in_env(envv, chosenv[j]@));
                let e = choose|e: int| 0 <= e < envv.len() && envv[e] == chosenv[j]@;
                assert(envv[e].version.wf());
            }
        }
        commit_chosen(&mut self.manifest, &chosen);

        // The project is now resolved: every unmet requirement was locked.
        proof {
            let mfin = self.manifest@;
            assert(project_resolved(mfin, unl)) by {
                assert forall|uu: int, dd: int|
                    0 <= uu < unl.len() && (#[trigger] unl[uu]).descriptor is Some
                        && 0 <= dd < unl[uu].descriptor.unwrap().dependencies.len()
                    implies has_entry(mfin,
                        (#[trigger] unl[uu].descriptor.unwrap().dependencies[dd]).name)
                        || unlocked_desc_names(unl).contains(
                            unl[uu].descriptor.unwrap().dependencies[dd].name) by {
                    let nn = unl[uu].descriptor.unwrap().dependencies[dd].name;
                    let rr = unl[uu].descriptor.unwrap().dependencies[dd].range;
                    assert(satisfied_by(m0, unl, nn, rr, chosenv));
                    if has_entry(m0, nn) {
                        let x = choose|x: int| 0 <= x < m0.len()
                            && (#[trigger] m0[x]).name == nn;
                        assert(mfin[x].name == nn);
                    } else if !unlocked_desc_names(unl).contains(nn) {
                        let k = choose|k: int| 0 <= k < chosenv.len()
                            && (#[trigger] chosenv[k])@.name == nn
                            && range_text_matches(rr, chosenv[k]@.version);
                        assert(mfin[m0.len() + k].name == nn);
                    }
                }
            }
            assert forall|j: int, dd: int|
                0 <= j < chosenv.len()
                    && 0 <= dd < (#[trigger] chosenv[j])@.dependencies.len()
                implies has_entry(self.manifest@,
                    (#[trigger] chosenv[j]@.dependencies[dd]).name)
                    || unlocked_desc_names(unl).contains(chosenv[j]@.dependencies[dd].name) by {
                let nn = chosenv[j]@.dependencies[dd].name;
                if has_entry(m0, nn) {
                    let x = choose|x: int| 0 <= x < m0.len() && (#[trigger] m0[x]).name == nn;
                    assert(self.manifest@[x].name == nn);
                } else if !unlocked_desc_names(unl).contains(nn) {
                    let k = choose|k: int| 0 <= k < chosenv.len()
                        && (#[trigger] chosenv[k])@.name == nn;
                    assert(self.manifest@[m0.len() + k].name == nn);
                }
            }
            assert forall|uu: int, dd: int, j: int|
                0 <= uu < unl.len() && (#[trigger] unl[uu]).descriptor is Some
                    && 0 <= dd < unl[uu].descriptor.unwrap().dependencies.len()
                    && 0 <= j < chosenv.len()
                    && (#[trigger] unl[uu].descriptor.unwrap().dependencies[dd]).name
                        == (#[trigger] chosenv[j])@.name
                implies range_text_matches(
                    unl[uu].descriptor.unwrap().dependencies[dd].range,
                    chosenv[j]@.version) by {
                let nn = unl[uu].descriptor.unwrap().dependencies[dd].name;
                let rr = unl[uu].descriptor.unwrap().dependencies[dd].range;
                assert(satisfied_by(m0, unl, nn, rr, chosenv));
                assert(!has_entry(m0, nn));
                assert(!unlocked_desc_names(unl).contains(nn));
                let k = choose|k: int| 0 <= k < chosenv.len()
                    && (#[trigger] chosenv[k])@.name == nn
                    && range_text_matches(rr, chosenv[k]@.version);
                assert(k == j);
            }
            if project_resolved(m0, unl) {
                assert(chosenv.len() == 0);
                assert(self.manifest@ =~= m0);
            }
            assert forall|q: int| 0 <= q < self.installed_packages@.len()
                implies has_entry(self.manifest@,
                    (#[trigger] self.installed_packages@[q])@.name) by {
                let nn = self.installed_packages@[q]@.name;
                assert(has_entry(m0, nn));
                let x = choose|x: int| 0 <= x < m0.len() && (#[trigger] m0[x]).name == nn;
                assert(self.manifest@[x].name == nn);
            }
        }
        Ok(ResolveResult {
            installed_from_locked,
            installed_from_unlocked_dependencies: chosen,
        })
    }
}

} // verus!
