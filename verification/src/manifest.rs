//! The lock state: locked entries, lookup and insert-or-replace, the row
//! form that the lock file persists, and the mark-and-sweep pass.

use vstd::prelude::*;
use crate::semver::{Version, VersionV};
use crate::descriptor::{deps_view, DepV, Dependency, duplicate_deps};
use crate::version_text::{parse_version, parse_version_spec, render_version_spec};

verus! {

/// One row of the manifest: a package locked at a version, with the
/// dependency ranges as declared at lock time.
#[derive(Debug)]
pub struct LockedEntry {
    pub name: String,
    pub version: Version,
    pub dependencies: Vec<Dependency>,
}

/// Mathematical value of a locked entry.
#[verifier::ext_equal]
pub ghost struct EntryV {
    pub name: Seq<char>,
    pub version: VersionV,
    pub dependencies: Seq<DepV>,
}

impl View for LockedEntry {
    type V = EntryV;

    open spec fn view(&self) -> EntryV {
        EntryV {
            name: self.name@,
            version: self.version@,
            dependencies: deps_view(self.dependencies@),
        }
    }
}

impl LockedEntry {
    /// An exact copy of this entry.
    pub fn duplicate(&self) -> (r: LockedEntry)
        ensures
            r@ =~= self@,
    {
        LockedEntry {
            name: self.name.clone(),
            version: self.version.duplicate(),
            dependencies: duplicate_deps(&self.dependencies),
        }
    }
}

/// Whether the manifest has an entry named `n`.
pub open spec fn has_entry(m: Seq<EntryV>, n: Seq<char>) -> bool {
    exists|i: int| 0 <= i < m.len() && (#[trigger] m[i]).name == n
}

/// The entry named `n` (meaningful when `has_entry` and names are unique).
pub open spec fn entry_named(m: Seq<EntryV>, n: Seq<char>) -> EntryV {
    m[choose|i: int| 0 <= i < m.len() && (#[trigger] m[i]).name == n]
}

/// A well-formed manifest: distinct names, well-formed versions.
pub open spec fn manifest_wf(m: Seq<EntryV>) -> bool {
    &&& forall|i: int, j: int| 0 <= i < j < m.len()
        ==> (#[trigger] m[i]).name != (#[trigger] m[j]).name
    &&& forall|i: int| 0 <= i < m.len()
        ==> (#[trigger] m[i]).version.wf() && m[i].version.bounded()
}

/// The persisted lock state: the set of locked entries, in insertion order.
#[derive(Debug)]
pub struct Manifest {
    entries: Vec<LockedEntry>,
}

impl View for Manifest {
    type V = Seq<EntryV>;

    closed spec fn view(&self) -> Seq<EntryV> {
        Seq::new(self.entries@.len(), |i: int| self.entries@[i]@)
    }
}

impl Manifest {
    pub open spec fn wf(&self) -> bool {
        manifest_wf(self@)
    }

    /// An empty manifest (an absent lock file).
    pub fn new() -> (r: Manifest)
        ensures
            r@ =~= Seq::<EntryV>::empty(),
            r.wf(),
    {
        Manifest { entries: Vec::new() }
    }

    /// The locked entries, in insertion order.
    pub fn all_locked(&self) -> (r: &Vec<LockedEntry>)
        ensures
            r@.len() == self@.len(),
            forall|i: int| 0 <= i < r@.len() ==> #[trigger] r@[i]@ == self@[i],
    {
        &self.entries
    }

    /// Exact lookup of a locked entry by name.
    pub fn get_locked(&self, name: &String) -> (r: Option<&LockedEntry>)
        requires
            self.wf(),
        ensures
            match r {
                Some(e) => has_entry(self@, name@) && e@ =~= entry_named(self@, name@),
                None => !has_entry(self@, name@),
            },
    {
        let mut i: usize = 0;
        while i < self.entries.len()
            invariant
                i <= self@.len(),
                self.wf(),
                forall|j: int| 0 <= j < i ==> (#[trigger] self@[j]).name != name@,
            decreases self@.len() - i,
        {
            if self.entries[i].name.eq(name) {
                proof {
                    assert(self@[i as int].name == name@);
                    let w = choose|k: int| 0 <= k < self@.len()
                        && (#[trigger] self@[k]).name == name@;
                    assert(w == i as int);
                }
                return Some(&self.entries[i]);
            }
            i += 1;
        }
        None
    }

    /// Whether `name` is locked.
    pub fn is_locked(&self, name: &String) -> (r: bool)
        requires
            self.wf(),
        ensures
            r == has_entry(self@, name@),
    {
        match self.get_locked(name) {
            Some(_) => true,
            None => false,
        }
    }

    /// Insert-or-replace: last write wins, insertion order kept for an
    /// existing name, new names appended.
    #[verifier::loop_isolation(false)]
    pub fn set_locked(&mut self, name: String, version: Version, dependencies: Vec<Dependency>)
        requires
            old(self).wf(),
            version@.wf(),
        ensures
            final(self).wf(),
            has_entry(old(self)@, name@) ==> exists|i: int| 0 <= i < old(self)@.len()
                && (#[trigger] old(self)@[i]).name == name@
                && final(self)@ =~= old(self)@.update(i, (EntryV {
                    name: name@,
                    version: version@,
                    dependencies: deps_view(dependencies@),
                })),
            !has_entry(old(self)@, name@) ==> final(self)@ =~= old(self)@.push(EntryV {
                name: name@,
                version: version@,
                dependencies: deps_view(dependencies@),
            }),
    {
        let ghost e = EntryV {
            name: name@,
            version: version@,
            dependencies: deps_view(dependencies@),
        };
        let entry = LockedEntry { name, version, dependencies };
        let mut i: usize = 0;
        while i < self.entries.len()
            invariant
                i <= self@.len(),
                self.wf(),
                self@ =~= old(self)@,
                forall|j: int| 0 <= j < i ==> (#[trigger] self@[j]).name != entry.name@,
                entry@ =~= e,
            decreases self@.len() - i,
        {
            if self.entries[i].name.eq(&entry.name) {
                proof {
                    assert(old(self)@[i as int].name == name@);
                    assert(has_entry(old(self)@, name@));
                }
                self.entries.remove(i);
                self.entries.insert(i, entry);
                proof {
                    assert(self@ =~= old(self)@.update(i as int, e));
                    assert(manifest_wf(self@)) by {
                        assert(forall|p: int| 0 <= p < self@.len() && p != i as int
                            ==> #[trigger] self@[p] == old(self)@[p]);
                        assert(self@[i as int] == e);
                    }
                }
                return;
            }
            i += 1;
        }
        proof {
            assert(!has_entry(old(self)@, name@));
        }
        self.entries.push(entry);
        proof {
            assert(self@ =~= old(self)@.push(e));
            assert(manifest_wf(self@)) by {
                assert(forall|p: int| 0 <= p < old(self)@.len()
                    ==> #[trigger] self@[p] == old(self)@[p]);
                assert(self@[old(self)@.len() as int] == e);
            }
        }
    }
}

/// One row of the lock file as persisted: the version still in its textual
/// form.
#[derive(Debug)]
pub struct RawEntry {
    pub name: String,
    pub version_text: Vec<u8>,
    pub dependencies: Vec<Dependency>,
}

/// Mathematical value of a raw row.
#[verifier::ext_equal]
pub ghost struct RawEntryV {
    pub name: Seq<char>,
    pub version_text: Seq<u8>,
    pub dependencies: Seq<DepV>,
}

impl View for RawEntry {
    type V = RawEntryV;

    open spec fn view(&self) -> RawEntryV {
        RawEntryV {
            name: self.name@,
            version_text: self.version_text@,
            dependencies: deps_view(self.dependencies@),
        }
    }
}

pub open spec fn rows_view(rows: Seq<RawEntry>) -> Seq<RawEntryV> {
    Seq::new(rows.len(), |i: int| rows[i]@)
}

/// Why a lock file's rows were rejected.
#[derive(Debug, PartialEq, Eq, Structural)]
pub enum ManifestLoadError {
    /// The row's version text is not a version.
    BadVersion { index: usize },
    /// The row repeats the name of an earlier row.
    DuplicateName { index: usize },
}

/// The rows `rows` load into manifest `m`: same names and dependency text,
/// versions parsed.
pub open spec fn rows_load_to(rows: Seq<RawEntryV>, m: Seq<EntryV>) -> bool {
    &&& m.len() == rows.len()
    &&& forall|i: int| 0 <= i < rows.len() ==> {
        &&& (#[trigger] m[i]).name == rows[i].name
        &&& Some(m[i].version) == parse_version_spec(rows[i].version_text)
        &&& m[i].dependencies == rows[i].dependencies
    }
}

impl Manifest {
    /// Loads the manifest from the lock file's rows. Fails on a version text
    /// that does not parse and on a repeated name — a present but malformed
    /// lock file is a load error.
    #[verifier::loop_isolation(false)]
    pub fn from_rows(rows: &Vec<RawEntry>) -> (r: Result<Manifest, ManifestLoadError>)
        ensures
            match r {
                Ok(m) => m.wf() && rows_load_to(rows_view(rows@), m@),
                Err(ManifestLoadError::BadVersion { index }) => {
                    &&& index < rows@.len()
                    &&& parse_version_spec(rows@[index as int]@.version_text) is None
                },
                Err(ManifestLoadError::DuplicateName { index }) => {
                    &&& index < rows@.len()
                    &&& exists|j: int| 0 <= j < index
                        && (#[trigger] rows@[j]@).name == rows@[index as int]@.name
                },
            },
    {
        let mut out = Manifest { entries: Vec::new() };
        let mut i: usize = 0;
        while i < rows.len()
            invariant
                i <= rows@.len(),
                out@.len() == i,
                out.wf(),
                forall|j: int| 0 <= j < i ==> {
                    &&& (#[trigger] out@[j]).name == rows@[j]@.name
                    &&& Some(out@[j].version) == parse_version_spec(rows@[j]@.version_text)
                    &&& out@[j].dependencies == rows@[j]@.dependencies
                },
            decreases rows@.len() - i,
        {
            let row = &rows[i];
            let version = match parse_version(row.version_text.as_slice()) {
                Some(v) => v,
                None => {
                    return Err(ManifestLoadError::BadVersion { index: i });
                },
            };
            if out.is_locked(&row.name) {
                proof {
                    let w = choose|k: int| 0 <= k < out@.len()
                        && (#[trigger] out@[k]).name == row.name@;
                    assert(rows@[w]@.name == rows@[i as int]@.name);
                }
                return Err(ManifestLoadError::DuplicateName { index: i });
            }
            let ghost prev = out@;
            out.entries.push(LockedEntry {
                name: row.name.clone(),
                version,
                dependencies: duplicate_deps(&row.dependencies),
            });
            proof {
                assert(out@.drop_last() =~= prev);
                assert(forall|j: int| 0 <= j < prev.len()
                    ==> #[trigger] out@[j] == out@.drop_last()[j]);
                assert(out@[i as int].name == rows@[i as int]@.name);
                assert(out@[i as int].version == version@);
                assert(out@[i as int].dependencies =~= rows@[i as int]@.dependencies);
                assert(manifest_wf(out@));
            }
            i += 1;
        }
        Ok(out)
    }

    /// Renders the manifest into the rows the lock file persists.
    pub fn to_rows(&self) -> (r: Vec<RawEntry>)
        ensures
            rows_render(self@, rows_view(r@)),
    {
        let mut out: Vec<RawEntry> = Vec::new();
        let mut i: usize = 0;
        while i < self.entries.len()
            invariant
                i <= self@.len(),
                out@.len() == i,
                forall|j: int| 0 <= j < i ==> {
                    &&& (#[trigger] out@[j]@).name == self@[j].name
                    &&& out@[j]@.version_text == render_version_spec(self@[j].version)
                    &&& out@[j]@.dependencies == self@[j].dependencies
                },
            decreases self@.len() - i,
        {
            let e = &self.entries[i];
            out.push(RawEntry {
                name: e.name.clone(),
                version_text: e.version.render(),
                dependencies: duplicate_deps(&e.dependencies),
            });
            i += 1;
        }
        out
    }
}

/// The rows `rows` are the rendering of manifest `m`.
pub open spec fn rows_render(m: Seq<EntryV>, rows: Seq<RawEntryV>) -> bool {
    &&& rows.len() == m.len()
    &&& forall|i: int| 0 <= i < m.len() ==> {
        &&& (#[trigger] rows[i]).name == m[i].name
        &&& rows[i].version_text == render_version_spec(m[i].version)
        &&& rows[i].dependencies == m[i].dependencies
    }
}

/// Round trip: the rows a well-formed manifest renders to load back into
/// the same manifest — saving and re-loading the lock file is the identity.
pub proof fn lemma_rows_roundtrip(m: Seq<EntryV>, rows: Seq<RawEntryV>)
    requires
        manifest_wf(m),
        rows_render(m, rows),
    ensures
        forall|mm: Seq<EntryV>| rows_load_to(rows, mm) ==> mm =~~= m,
        exists|mm: Seq<EntryV>| #[trigger] rows_load_to(rows, mm),
{
    assert forall|i: int| 0 <= i < rows.len()
        implies parse_version_spec(#[trigger] rows[i].version_text) == Some(m[i].version) by {
        crate::version_text::lemma_parse_render_roundtrip(m[i].version);
    }
    assert(rows_load_to(rows, m));
    assert forall|mm: Seq<EntryV>| rows_load_to(rows, mm) implies mm =~~= m by {
        assert(mm.len() == m.len());
        assert forall|i: int| 0 <= i < m.len() implies mm[i] =~~= m[i] by {
            assert(Some(mm[i].version) == parse_version_spec(rows[i].version_text));
        }
    }
}

} // verus!
// Mark and sweep: the reachable set is specified as the least set that
// contains every locked root and is closed under locked dependencies; the
// marking loop is proved to compute exactly that set.

verus! {

/// The views of a vector of names.
pub open spec fn str_seq(v: Seq<String>) -> Seq<Seq<char>> {
    Seq::new(v.len(), |i: int| v[i]@)
}

/// The set of names a vector of names holds.
pub open spec fn names_set(v: Seq<String>) -> Set<Seq<char>> {
    Set::new(|n: Seq<char>| exists|i: int| 0 <= i < v.len() && #[trigger] v[i]@ == n)
}

/// Every root that is locked is in `s`.
pub open spec fn sweep_basis(m: Seq<EntryV>, roots: Seq<Seq<char>>, s: Set<Seq<char>>) -> bool {
    forall|j: int| 0 <= j < roots.len() && has_entry(m, #[trigger] roots[j])
        ==> s.contains(roots[j])
}

/// Every locked dependency of an entry in `s` is in `s`.
pub open spec fn sweep_closed(m: Seq<EntryV>, s: Set<Seq<char>>) -> bool {
    forall|i: int, k: int|
        0 <= i < m.len() && s.contains((#[trigger] m[i]).name)
            && 0 <= k < m[i].dependencies.len()
            && has_entry(m, (#[trigger] m[i].dependencies[k]).name)
        ==> s.contains(m[i].dependencies[k].name)
}

/// `s` is the reachable set: locked names only, containing the locked
/// roots, closed under locked dependencies, and least among such sets.
pub open spec fn is_reach_set(m: Seq<EntryV>, roots: Seq<Seq<char>>, s: Set<Seq<char>>) -> bool {
    &&& forall|n: Seq<char>| s.contains(n) ==> has_entry(m, n)
    &&& sweep_basis(m, roots, s)
    &&& sweep_closed(m, s)
    &&& forall|t: Set<Seq<char>>|
        #![trigger sweep_basis(m, roots, t), sweep_closed(m, t)]
        sweep_basis(m, roots, t) && sweep_closed(m, t) ==> s.subset_of(t)
}

/// The reachable set is unique.
pub proof fn lemma_reach_set_unique(
    m: Seq<EntryV>,
    roots: Seq<Seq<char>>,
    s1: Set<Seq<char>>,
    s2: Set<Seq<char>>,
)
    requires
        is_reach_set(m, roots, s1),
        is_reach_set(m, roots, s2),
    ensures
        s1 =~= s2,
{
    assert(s1.subset_of(s2));
    assert(s2.subset_of(s1));
}

/// The entries of `m` whose names are in `s`, in order.
pub open spec fn keep_entries(m: Seq<EntryV>, s: Set<Seq<char>>) -> Seq<EntryV>
    decreases m.len(),
{
    if m.len() == 0 {
        Seq::empty()
    } else if s.contains(m.last().name) {
        keep_entries(m.drop_last(), s).push(m.last())
    } else {
        keep_entries(m.drop_last(), s)
    }
}

/// The names of the entries of `m` not in `s`, in order.
pub open spec fn removed_names(m: Seq<EntryV>, s: Set<Seq<char>>) -> Seq<Seq<char>>
    decreases m.len(),
{
    if m.len() == 0 {
        Seq::empty()
    } else if s.contains(m.last().name) {
        removed_names(m.drop_last(), s)
    } else {
        removed_names(m.drop_last(), s).push(m.last().name)
    }
}

/// What keeping reachable entries preserves: membership, well-formedness,
/// and which names remain.
pub proof fn lemma_keep_entries(m: Seq<EntryV>, s: Set<Seq<char>>)
    ensures
        forall|j: int| 0 <= j < keep_entries(m, s).len()
            ==> exists|i: int| 0 <= i < m.len() && m[i] == #[trigger] keep_entries(m, s)[j],
        manifest_wf(m) ==> manifest_wf(keep_entries(m, s)),
        forall|n: Seq<char>| #[trigger] has_entry(keep_entries(m, s), n)
            <==> has_entry(m, n) && s.contains(n),
    decreases m.len(),
{
    if m.len() == 0 {
        assert forall|n: Seq<char>| #[trigger] has_entry(keep_entries(m, s), n)
            implies has_entry(m, n) && s.contains(n) by {}
    } else {
        let p = m.drop_last();
        lemma_keep_entries(p, s);
        assert(forall|i: int| 0 <= i < p.len() ==> p[i] == #[trigger] m[i]);
        if manifest_wf(m) {
            assert(manifest_wf(p));
        }
        let k = keep_entries(m, s);
        let kp = keep_entries(p, s);
        assert forall|j: int| 0 <= j < k.len()
            implies exists|i: int| 0 <= i < m.len() && m[i] == #[trigger] k[j] by {
            if j < kp.len() {
                let i = choose|i: int| 0 <= i < p.len() && p[i] == kp[j];
                assert(m[i] == k[j]);
            } else {
                assert(k[j] == m[m.len() - 1]);
            }
        }
        if manifest_wf(m) {
            assert(manifest_wf(k)) by {
                if s.contains(m.last().name) {
                    assert forall|a: int, b: int| 0 <= a < b < k.len()
                        implies (#[trigger] k[a]).name != (#[trigger] k[b]).name by {
                        if b < kp.len() {
                        } else {
                            assert(k[b] == m.last());
                            let i = choose|i: int| 0 <= i < p.len() && p[i] == kp[a];
                            assert(m[i].name != m[m.len() - 1].name);
                        }
                    }
                    assert forall|a: int| 0 <= a < k.len()
                        implies (#[trigger] k[a]).version.wf() && k[a].version.bounded() by {
                        if a < kp.len() {
                        } else {
                            assert(k[a] == m.last());
                        }
                    }
                }
            }
        }
        assert forall|n: Seq<char>| #[trigger] has_entry(k, n)
            <==> has_entry(m, n) && s.contains(n) by {
            if has_entry(k, n) {
                let j = choose|j: int| 0 <= j < k.len() && (#[trigger] k[j]).name == n;
                if j < kp.len() {
                    assert(has_entry(kp, n));
                    let i = choose|i: int| 0 <= i < p.len() && (#[trigger] p[i]).name == n;
                    assert(m[i].name == n);
                } else {
                    assert(s.contains(m.last().name));
                    assert(m[m.len() - 1].name == n);
                }
            }
            if has_entry(m, n) && s.contains(n) {
                let i = choose|i: int| 0 <= i < m.len() && (#[trigger] m[i]).name == n;
                if i < p.len() {
                    assert(has_entry(p, n));
                    assert(has_entry(kp, n));
                    let j = choose|j: int| 0 <= j < kp.len() && (#[trigger] kp[j]).name == n;
                    assert(k[j].name == n);
                } else {
                    assert(m.last().name == n);
                    assert(k[k.len() - 1].name == n);
                }
            }
        }
    }
}

/// Distinct names that all have entries are no more numerous than the
/// entries.
proof fn lemma_distinct_names_bound(names: Seq<Seq<char>>, m: Seq<EntryV>)
    requires
        forall|a: int, b: int| 0 <= a < b < names.len()
            ==> #[trigger] names[a] != #[trigger] names[b],
        forall|j: int| 0 <= j < names.len() ==> has_entry(m, #[trigger] names[j]),
    ensures
        names.len() <= m.len(),
    decreases names.len(),
{
    if names.len() > 0 {
        let n = names.last();
        let i = choose|i: int| 0 <= i < m.len() && (#[trigger] m[i]).name == n;
        let mp = m.remove(i);
        let np = names.drop_last();
        assert forall|j: int| 0 <= j < np.len() implies has_entry(mp, #[trigger] np[j]) by {
            let w = choose|w: int| 0 <= w < m.len() && (#[trigger] m[w]).name == np[j];
            assert(np[j] != n);
            assert(w != i);
            if w < i {
                assert(mp[w] == m[w]);
            } else {
                assert(mp[w - 1] == m[w]);
            }
        }
        lemma_distinct_names_bound(np, mp);
    }
}

/// Every name in `names` lies in every based-and-closed set.
pub open spec fn all_forced(m: Seq<EntryV>, roots: Seq<Seq<char>>, names: Seq<String>) -> bool {
    forall|t: Set<Seq<char>>|
        #![trigger sweep_basis(m, roots, t), sweep_closed(m, t)]
        sweep_basis(m, roots, t) && sweep_closed(m, t)
            ==> forall|j: int| 0 <= j < names.len() ==> t.contains(#[trigger] names[j]@)
}

/// Whether `v` holds the name `n`.
pub(crate) fn contains_string(v: &Vec<String>, n: &String) -> (r: bool)
    ensures
        r == names_set(v@).contains(n@),
{
    let mut i: usize = 0;
    while i < v.len()
        invariant
            i <= v@.len(),
            forall|j: int| 0 <= j < i ==> #[trigger] v@[j]@ != n@,
        decreases v@.len() - i,
    {
        if v[i].eq(n) {
            assert(v@[i as int]@ == n@);
            return true;
        }
        i += 1;
    }
    assert(!names_set(v@).contains(n@));
    false
}

impl Manifest {
    /// Removes every locked entry unreachable from the given root names and
    /// returns the removed names, in manifest order. Reachability is by the
    /// declared dependency names of reachable locked entries, rooted at
    /// every root name that is locked.
    #[verifier::loop_isolation(false)]
    pub fn mark_and_sweep_packages(&mut self, roots: &Vec<String>) -> (removed: Vec<String>)
        requires
            old(self).wf(),
        ensures
            final(self).wf(),
            exists|s: Set<Seq<char>>| {
                &&& #[trigger] is_reach_set(old(self)@, str_seq(roots@), s)
                &&& final(self)@ =~= keep_entries(old(self)@, s)
                &&& str_seq(removed@) =~= removed_names(old(self)@, s)
            },
    {
        let ghost m = self@;
        let ghost rts = str_seq(roots@);
        let mut marked: Vec<String> = Vec::new();

        // Seed: every root that is locked.
        let mut j: usize = 0;
        while j < roots.len()
            invariant
                j <= roots@.len(),
                self@ =~= m,
                forall|a: int, b: int| 0 <= a < b < marked@.len()
                    ==> #[trigger] marked@[a]@ != #[trigger] marked@[b]@,
                forall|a: int| 0 <= a < marked@.len()
                    ==> has_entry(m, #[trigger] marked@[a]@),
                all_forced(m, rts, marked@),
                forall|a: int| 0 <= a < j && has_entry(m, #[trigger] roots@[a]@)
                    ==> names_set(marked@).contains(roots@[a]@),
            decreases roots@.len() - j,
        {
            let name = &roots[j];
            if self.is_locked(name) && !contains_string(&marked, name) {
                let ghost prev = marked@;
                marked.push(name.clone());
                proof {
                    assert(marked@.drop_last() =~= prev);
                    assert(marked@.last()@ == roots@[j as int]@);
                    assert(all_forced(m, rts, marked@)) by {
                        assert forall|t: Set<Seq<char>>|
                            sweep_basis(m, rts, t) && sweep_closed(m, t)
                            implies forall|a: int| 0 <= a < marked@.len()
                                ==> t.contains(#[trigger] marked@[a]@) by {
                            assert(rts[j as int] == roots@[j as int]@);
                            assert(t.contains(roots@[j as int]@));
                            assert forall|a: int| 0 <= a < marked@.len()
                                implies t.contains(#[trigger] marked@[a]@) by {
                                if a < prev.len() {
                                    assert(prev[a] == marked@[a]);
                                }
                            }
                        }
                    }
                    assert(forall|a: int| 0 <= a < j && has_entry(m, #[trigger] roots@[a]@)
                        ==> names_set(prev).contains(roots@[a]@));
                    assert forall|a: int| 0 <= a <= j && has_entry(m, #[trigger] roots@[a]@)
                        implies names_set(marked@).contains(roots@[a]@) by {
                        if a < j {
                            let w = choose|w: int| 0 <= w < prev.len()
                                && #[trigger] prev[w]@ == roots@[a]@;
                            assert(marked@[w]@ == roots@[a]@);
                        } else {
                            assert(marked@[marked@.len() - 1]@ == roots@[a]@);
                        }
                    }
                }
            } else {
                proof {
                    if has_entry(m, roots@[j as int]@) {
                        assert(names_set(marked@).contains(roots@[j as int]@));
                    }
                }
            }
            j += 1;
        }
        proof {
            assert(sweep_basis(m, rts, names_set(marked@))) by {
                assert forall|a: int| 0 <= a < rts.len() && has_entry(m, #[trigger] rts[a])
                    implies names_set(marked@).contains(rts[a]) by {
                    assert(rts[a] == roots@[a]@);
                }
            }
            lemma_distinct_names_bound(str_seq(marked@), m);
        }

        // Saturate: add locked dependencies of marked entries until nothing
        // changes.
        let mut changed = true;
        while changed
            invariant
                self@ =~= m,
                forall|a: int, b: int| 0 <= a < b < marked@.len()
                    ==> #[trigger] marked@[a]@ != #[trigger] marked@[b]@,
                forall|a: int| 0 <= a < marked@.len()
                    ==> has_entry(m, #[trigger] marked@[a]@),
                all_forced(m, rts, marked@),
                sweep_basis(m, rts, names_set(marked@)),
                marked@.len() <= m.len(),
                !changed ==> sweep_closed(m, names_set(marked@)),
            decreases m.len() - marked@.len() + (if changed { 1int } else { 0int }),
        {
            changed = false;
            let ghost pass_start = marked@.len();
            let mut ei: usize = 0;
            while ei < self.entries.len()
                invariant
                    self@ =~= m,
                    forall|a: int, b: int| 0 <= a < b < marked@.len()
                        ==> #[trigger] marked@[a]@ != #[trigger] marked@[b]@,
                    forall|a: int| 0 <= a < marked@.len()
                        ==> has_entry(m, #[trigger] marked@[a]@),
                    all_forced(m, rts, marked@),
                    sweep_basis(m, rts, names_set(marked@)),
                    marked@.len() <= m.len(),
                    ei <= m.len(),
                    changed ==> marked@.len() > pass_start,
                    !changed ==> marked@.len() == pass_start,
                    !changed ==> forall|p: int, k: int|
                        0 <= p < ei && names_set(marked@).contains((#[trigger] m[p]).name)
                            && 0 <= k < m[p].dependencies.len()
                            && has_entry(m, (#[trigger] m[p].dependencies[k]).name)
                        ==> names_set(marked@).contains(m[p].dependencies[k].name),
                decreases m.len() - ei,
            {
                if contains_string(&marked, &self.entries[ei].name) {
                    let mut k: usize = 0;
                    while k < self.entries[ei].dependencies.len()
                        invariant
                            self@ =~= m,
                            ei < m.len(),
                            k <= m[ei as int].dependencies.len(),
                            forall|a: int, b: int| 0 <= a < b < marked@.len()
                                ==> #[trigger] marked@[a]@ != #[trigger] marked@[b]@,
                            forall|a: int| 0 <= a < marked@.len()
                                ==> has_entry(m, #[trigger] marked@[a]@),
                            all_forced(m, rts, marked@),
                            sweep_basis(m, rts, names_set(marked@)),
                            marked@.len() <= m.len(),
                            names_set(marked@).contains(m[ei as int].name),
                            changed ==> marked@.len() > pass_start,
                            !changed ==> marked@.len() == pass_start,
                            !changed ==> forall|p: int, kk: int|
                                0 <= p < ei && names_set(marked@).contains((#[trigger] m[p]).name)
                                    && 0 <= kk < m[p].dependencies.len()
                                    && has_entry(m, (#[trigger] m[p].dependencies[kk]).name)
                                ==> names_set(marked@).contains(m[p].dependencies[kk].name),
                            !changed ==> forall|kk: int|
                                0 <= kk < k
                                    && has_entry(m, (#[trigger] m[ei as int].dependencies[kk]).name)
                                ==> names_set(marked@).contains(m[ei as int].dependencies[kk].name),
                        decreases m[ei as int].dependencies.len() - k,
                    {
                        let dep_name = &self.entries[ei].dependencies[k].name;
                        proof {
                            assert(dep_name@ == m[ei as int].dependencies[k as int].name);
                        }
                        if self.is_locked(dep_name) && !contains_string(&marked, dep_name) {
                            let ghost prev = marked@;
                            marked.push(dep_name.clone());
                            changed = true;
                            proof {
                                assert(marked@.drop_last() =~= prev);
                                assert(marked@.last()@ == m[ei as int].dependencies[k as int].name);
                                assert(all_forced(m, rts, marked@)) by {
                                    assert forall|t: Set<Seq<char>>|
                                        sweep_basis(m, rts, t) && sweep_closed(m, t)
                                        implies forall|a: int| 0 <= a < marked@.len()
                                            ==> t.contains(#[trigger] marked@[a]@) by {
                                        let pw = choose|pw: int| 0 <= pw < prev.len()
                                            && #[trigger] prev[pw]@ == m[ei as int].name;
                                        assert(t.contains(m[ei as int].name));
                                        assert(t.contains(m[ei as int].dependencies[k as int].name));
                                        assert forall|a: int| 0 <= a < marked@.len()
                                            implies t.contains(#[trigger] marked@[a]@) by {
                                            if a < prev.len() {
                                                assert(prev[a] == marked@[a]);
                                            }
                                        }
                                    }
                                }
                                lemma_distinct_names_bound(str_seq(marked@), m);
                                assert(sweep_basis(m, rts, names_set(marked@))) by {
                                    assert forall|a: int| 0 <= a < rts.len()
                                        && has_entry(m, #[trigger] rts[a])
                                        implies names_set(marked@).contains(rts[a]) by {
                                        let w = choose|w: int| 0 <= w < prev.len()
                                            && #[trigger] prev[w]@ == rts[a];
                                        assert(marked@[w]@ == rts[a]);
                                    }
                                }
                                assert(names_set(marked@).contains(m[ei as int].name)) by {
                                    let w = choose|w: int| 0 <= w < prev.len()
                                        && #[trigger] prev[w]@ == m[ei as int].name;
                                    assert(marked@[w]@ == m[ei as int].name);
                                }
                            }
                        }
                        k += 1;
                    }
                }
                ei += 1;
            }
        }
        let ghost s = names_set(marked@);
        proof {
            assert(is_reach_set(m, rts, s)) by {
                assert forall|n: Seq<char>| s.contains(n) implies has_entry(m, n) by {
                    let w = choose|w: int| 0 <= w < marked@.len()
                        && #[trigger] marked@[w]@ == n;
                }
                assert forall|t: Set<Seq<char>>|
                    sweep_basis(m, rts, t) && sweep_closed(m, t)
                    implies s.subset_of(t) by {
                    assert forall|n: Seq<char>| s.contains(n) implies t.contains(n) by {
                        let w = choose|w: int| 0 <= w < marked@.len()
                            && #[trigger] marked@[w]@ == n;
                        assert(t.contains(marked@[w]@));
                    }
                }
            }
        }

        // Sweep: keep the marked entries, collect the names of the rest.
        let mut kept: Vec<LockedEntry> = Vec::new();
        let mut removed: Vec<String> = Vec::new();
        let mut idx: usize = 0;
        while idx < self.entries.len()
            invariant
                self@ =~= m,
                idx <= m.len(),
                Seq::new(kept@.len(), |q: int| kept@[q]@)
                    =~= keep_entries(m.take(idx as int), s),
                str_seq(removed@) =~= removed_names(m.take(idx as int), s),
            decreases m.len() - idx,
        {
            proof {
                assert(m.take(idx + 1).drop_last() =~= m.take(idx as int));
                assert(m.take(idx + 1).last() == m[idx as int]);
            }
            if contains_string(&marked, &self.entries[idx].name) {
                kept.push(self.entries[idx].duplicate());
            } else {
                removed.push(self.entries[idx].name.clone());
            }
            idx += 1;
        }
        proof {
            assert(m.take(m.len() as int) =~= m);
        }
        self.entries = kept;
        proof {
            assert(self@ =~= keep_entries(m, s));
            lemma_keep_entries(m, s);
        }
        removed
    }
}

} // verus!
// The sweep is idempotent: sweeping a just-swept manifest with the same
// roots removes nothing.

verus! {

/// A set that holds every entry's name keeps everything.
proof fn lemma_keep_all(m: Seq<EntryV>, s: Set<Seq<char>>)
    requires
        forall|i: int| 0 <= i < m.len() ==> s.contains((#[trigger] m[i]).name),
    ensures
        keep_entries(m, s) =~= m,
        removed_names(m, s) =~= Seq::<Seq<char>>::empty(),
    decreases m.len(),
{
    if m.len() > 0 {
        assert(forall|i: int| 0 <= i < m.drop_last().len()
            ==> (#[trigger] m.drop_last()[i]) == m[i]);
        lemma_keep_all(m.drop_last(), s);
        assert(s.contains(m.last().name)) by {
            assert(m[m.len() - 1] == m.last());
        }
    }
}

/// After a sweep, a second sweep with the same roots marks the same set and
/// removes nothing: the kept manifest is exactly the reachable part.
pub proof fn lemma_sweep_idempotent(
    m: Seq<EntryV>,
    roots: Seq<Seq<char>>,
    big: Set<Seq<char>>,
    small: Set<Seq<char>>,
)
    requires
        manifest_wf(m),
        is_reach_set(m, roots, big),
        is_reach_set(keep_entries(m, big), roots, small),
    ensures
        keep_entries(keep_entries(m, big), small) =~= keep_entries(m, big),
        removed_names(keep_entries(m, big), small) =~= Seq::<Seq<char>>::empty(),
{
    let k = keep_entries(m, big);
    lemma_keep_entries(m, big);

    // `big`, restricted to the kept manifest, still contains the roots and
    // is closed; so the new mark set is no larger.
    assert(sweep_basis(k, roots, big)) by {
        assert forall|j: int| 0 <= j < roots.len() && has_entry(k, #[trigger] roots[j])
            implies big.contains(roots[j]) by {
            assert(has_entry(m, roots[j]));
        }
    }
    assert(sweep_closed(k, big)) by {
        assert forall|i: int, kk: int|
            0 <= i < k.len() && big.contains((#[trigger] k[i]).name)
                && 0 <= kk < k[i].dependencies.len()
                && has_entry(k, (#[trigger] k[i].dependencies[kk]).name)
            implies big.contains(k[i].dependencies[kk].name) by {
            let x = choose|x: int| 0 <= x < m.len() && m[x] == k[i];
            assert(has_entry(m, k[i].dependencies[kk].name));
            assert(m[x].dependencies[kk] == k[i].dependencies[kk]);
        }
    }
    assert(small.subset_of(big));

    // And the new mark set still contains the roots and is closed over the
    // whole manifest; so the old mark set is no larger either.
    assert(sweep_basis(m, roots, small)) by {
        assert forall|j: int| 0 <= j < roots.len() && has_entry(m, #[trigger] roots[j])
            implies small.contains(roots[j]) by {
            assert(big.contains(roots[j]));
            assert(has_entry(k, roots[j]));
        }
    }
    assert(sweep_closed(m, small)) by {
        assert forall|i: int, kk: int|
            0 <= i < m.len() && small.contains((#[trigger] m[i]).name)
                && 0 <= kk < m[i].dependencies.len()
                && has_entry(m, (#[trigger] m[i].dependencies[kk]).name)
            implies small.contains(m[i].dependencies[kk].name) by {
            let dn = m[i].dependencies[kk].name;
            assert(big.contains(m[i].name));
            assert(big.contains(dn));
            assert(has_entry(k, dn));
            assert(has_entry(k, m[i].name));
            let j = choose|j: int| 0 <= j < k.len() && (#[trigger] k[j]).name == m[i].name;
            let x = choose|x: int| 0 <= x < m.len() && m[x] == k[j];
            assert(m[x].name == m[i].name);
            assert(x == i);
            assert(k[j] == m[i]);
            assert(k[j].dependencies[kk] == m[i].dependencies[kk]);
        }
    }
    assert(big.subset_of(small));
    assert(big =~= small);

    assert forall|i: int| 0 <= i < k.len() implies small.contains((#[trigger] k[i]).name) by {
        assert(has_entry(k, k[i].name));
        assert(big.contains(k[i].name));
    }
    lemma_keep_all(k, small);
}

} // verus!
