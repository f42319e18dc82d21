//! Package descriptors: a declared dependency (name plus range text) and the
//! parsed snapshot of a package's `package.json`.

use vstd::prelude::*;
use crate::semver::{Version, VersionV};
use crate::unity::UnityVersion;

verus! {

/// One declared dependency: the target package's name and the version-range
/// expression exactly as declared.
#[derive(Debug)]
pub struct Dependency {
    pub name: String,
    pub range: Vec<u8>,
}

/// Mathematical value of a dependency.
#[verifier::ext_equal]
pub ghost struct DepV {
    pub name: Seq<char>,
    pub range: Seq<u8>,
}

impl View for Dependency {
    type V = DepV;

    open spec fn view(&self) -> DepV {
        DepV { name: self.name@, range: self.range@ }
    }
}

impl Dependency {
    /// An exact copy of this dependency.
    pub fn duplicate(&self) -> (r: Dependency)
        ensures
            r@ =~= self@,
    {
        let mut range: Vec<u8> = Vec::new();
        crate::version_text::append_bytes(&mut range, &self.range);
        Dependency { name: self.name.clone(), range }
    }
}

/// The sequence of dependency values a dependency vector holds.
pub open spec fn deps_view(v: Seq<Dependency>) -> Seq<DepV> {
    Seq::new(v.len(), |i: int| v[i]@)
}

/// Dependency names are pairwise distinct.
pub open spec fn deps_unique(d: Seq<DepV>) -> bool {
    forall|i: int, j: int| 0 <= i < j < d.len() ==> (#[trigger] d[i]).name != (#[trigger] d[j]).name
}

/// An immutable snapshot of one package's descriptor file.
#[derive(Debug)]
pub struct PackageDescriptor {
    pub name: String,
    pub version: Version,
    pub dependencies: Vec<Dependency>,
    /// The least editor version the package declares it needs, if any.
    pub unity: Option<UnityVersion>,
}

/// Mathematical value of a descriptor.
#[verifier::ext_equal]
pub ghost struct DescV {
    pub name: Seq<char>,
    pub version: VersionV,
    pub dependencies: Seq<DepV>,
    pub unity: Option<UnityVersion>,
}

impl View for PackageDescriptor {
    type V = DescV;

    open spec fn view(&self) -> DescV {
        DescV {
            name: self.name@,
            version: self.version@,
            dependencies: deps_view(self.dependencies@),
            unity: self.unity,
        }
    }
}

impl DescV {
    /// A well-formed descriptor: well-formed version, distinct dependencies.
    pub open spec fn wf(self) -> bool {
        self.version.wf() && deps_unique(self.dependencies)
    }
}

/// Copies a dependency vector.
pub fn duplicate_deps(deps: &Vec<Dependency>) -> (r: Vec<Dependency>)
    ensures
        deps_view(r@) =~= deps_view(deps@),
{
    let mut out: Vec<Dependency> = Vec::new();
    let mut i: usize = 0;
    while i < deps.len()
        invariant
            i <= deps@.len(),
            out@.len() == i,
            forall|j: int| 0 <= j < i ==> out@[j]@ =~= #[trigger] deps@[j]@,
        decreases deps@.len() - i,
    {
        out.push(deps[i].duplicate());
        i += 1;
    }
    out
}

impl PackageDescriptor {
    /// An exact copy of this descriptor.
    pub fn duplicate(&self) -> (r: PackageDescriptor)
        ensures
            r@ =~= self@,
    {
        PackageDescriptor {
            name: self.name.clone(),
            version: self.version.duplicate(),
            dependencies: duplicate_deps(&self.dependencies),
            unity: self.unity,
        }
    }
}

} // verus!
