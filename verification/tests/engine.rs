use vrc_get_vpm::descriptor::{Dependency, PackageDescriptor};
use vrc_get_vpm::manifest::{Manifest, ManifestLoadError, RawEntry};
use vrc_get_vpm::project::{DirEntry, UnityProject};
use vrc_get_vpm::resolve::{Environment, ResolvePackageErr, VersionSelector};
use vrc_get_vpm::semver::Version;
use vrc_get_vpm::unity::UnityVersion;
use vrc_get_vpm::gui_config::{
    backup_default, language_default, project_sorting_default, GuiConfig, WindowSize,
};

fn v(major: u64, minor: u64, patch: u64) -> Version {
    Version { major, minor, patch, pre: Vec::new() }
}

fn dep(name: &str, range: &str) -> Dependency {
    Dependency { name: name.to_owned(), range: range.as_bytes().to_vec() }
}

fn desc(name: &str, version: Version, deps: Vec<Dependency>) -> PackageDescriptor {
    PackageDescriptor { name: name.to_owned(), version, dependencies: deps, unity: None }
}

fn project(manifest: Manifest, unlocked: Vec<DirEntry>) -> UnityProject {
    UnityProject::load("proj".to_owned(), manifest, unlocked, None)
}

fn dir(name: &str, descriptor: Option<PackageDescriptor>) -> DirEntry {
    DirEntry { dir_name: name.to_owned(), descriptor }
}

#[test]
fn manifest_set_and_get() {
    let mut m = Manifest::new();
    m.set_locked("a".to_owned(), v(1, 0, 0), vec![dep("b", "^1.0.0")]);
    m.set_locked("b".to_owned(), v(1, 2, 0), vec![]);
    assert!(m.is_locked(&"a".to_owned()));
    assert!(!m.is_locked(&"c".to_owned()));
    let a = m.get_locked(&"a".to_owned()).expect("present");
    assert!(a.version.ver_eq(&v(1, 0, 0)));
    assert_eq!(a.dependencies.len(), 1);
    // last write wins, order kept
    m.set_locked("a".to_owned(), v(2, 0, 0), vec![]);
    assert_eq!(m.all_locked().len(), 2);
    assert_eq!(m.all_locked()[0].name, "a");
    assert!(m.all_locked()[0].version.ver_eq(&v(2, 0, 0)));
    assert_eq!(m.all_locked()[1].name, "b");
}

#[test]
fn manifest_rows_roundtrip() {
    let mut m = Manifest::new();
    m.set_locked("pkg.one".to_owned(), v(1, 0, 0), vec![dep("pkg.two", ">=1.0.0 <2.0.0")]);
    m.set_locked(
        "pkg.two".to_owned(),
        Version { major: 2, minor: 1, patch: 0, pre: b"rc.1".to_vec() },
        vec![],
    );
    let rows = m.to_rows();
    assert_eq!(rows[0].version_text, b"1.0.0".to_vec());
    assert_eq!(rows[1].version_text, b"2.1.0-rc.1".to_vec());
    let back = Manifest::from_rows(&rows).expect("loads");
    let orig = m.all_locked();
    let got = back.all_locked();
    assert_eq!(orig.len(), got.len());
    for i in 0..orig.len() {
        assert_eq!(orig[i].name, got[i].name);
        assert!(orig[i].version.ver_eq(&got[i].version));
        assert_eq!(orig[i].dependencies.len(), got[i].dependencies.len());
        for d in 0..orig[i].dependencies.len() {
            assert_eq!(orig[i].dependencies[d].name, got[i].dependencies[d].name);
            assert_eq!(orig[i].dependencies[d].range, got[i].dependencies[d].range);
        }
    }
}

#[test]
fn manifest_rows_errors() {
    let bad = vec![RawEntry {
        name: "a".to_owned(),
        version_text: b"not a version".to_vec(),
        dependencies: vec![],
    }];
    match Manifest::from_rows(&bad) {
        Err(ManifestLoadError::BadVersion { index }) => assert_eq!(index, 0),
        _ => panic!("expected a bad version"),
    }

    let dup = vec![
        RawEntry { name: "a".to_owned(), version_text: b"1.0.0".to_vec(), dependencies: vec![] },
        RawEntry { name: "a".to_owned(), version_text: b"2.0.0".to_vec(), dependencies: vec![] },
    ];
    match Manifest::from_rows(&dup) {
        Err(ManifestLoadError::DuplicateName { index }) => assert_eq!(index, 1),
        _ => panic!("expected a duplicate name"),
    }
}

#[test]
fn load_classifies_each_directory_once() {
    let mut m = Manifest::new();
    m.set_locked("good".to_owned(), v(1, 0, 0), vec![]);
    let dirs = vec![
        // locked, matching descriptor: installed
        dir("good", Some(desc("good", v(1, 0, 0), vec![]))),
        // descriptor name differs from directory name: unlocked
        dir("renamed", Some(desc("other", v(1, 0, 0), vec![]))),
        // no descriptor at all: unlocked
        dir("broken", None),
        // valid descriptor but not locked: unlocked
        dir("loose", Some(desc("loose", v(0, 1, 0), vec![]))),
    ];
    let p = project(m, dirs);
    assert_eq!(p.installed_packages.len() + p.unlocked_packages().len(), 4);
    assert_eq!(p.installed_packages.len(), 1);
    assert!(p.get_installed_package(&"good".to_owned()).is_some());
    assert!(p.get_installed_package(&"loose".to_owned()).is_none());
    let unlocked: Vec<&str> =
        p.unlocked_packages().iter().map(|e| e.dir_name.as_str()).collect();
    assert_eq!(unlocked, vec!["renamed", "broken", "loose"]);
}

#[test]
fn load_survives_corrupt_editor_version() {
    let p = UnityProject::load(
        "proj".to_owned(),
        Manifest::new(),
        vec![],
        Some(b"not the marker at all".to_vec()),
    );
    assert!(p.unity_version().is_none());
    let q = UnityProject::load("proj".to_owned(), Manifest::new(), vec![], None);
    assert!(q.unity_version().is_none());
}

#[test]
fn sweep_removes_unreachable_and_is_idempotent() {
    let mut m = Manifest::new();
    // kept: the unlocked package depends on it, which pulls its own dependency
    m.set_locked("kept".to_owned(), v(1, 0, 0), vec![dep("pulled", "^1.0.0")]);
    m.set_locked("pulled".to_owned(), v(1, 1, 0), vec![]);
    // zombie: nothing reaches it
    m.set_locked("zombie".to_owned(), v(3, 0, 0), vec![]);
    let unlocked = vec![dir("loose", Some(desc("loose", v(0, 1, 0), vec![dep("kept", "^1.0.0")])))];
    let mut p = project(m, unlocked);
    let removed = p.mark_and_sweep();
    assert_eq!(removed, vec!["zombie".to_owned()]);
    assert!(p.is_locked(&"kept".to_owned()));
    assert!(p.is_locked(&"pulled".to_owned()));
    assert!(!p.is_locked(&"zombie".to_owned()));
    // running it again removes nothing
    let removed_again = p.mark_and_sweep();
    assert!(removed_again.is_empty());
    assert_eq!(p.locked_packages().len(), 2);
}

#[test]
fn find_package_picks_highest_admissible() {
    let env = Environment {
        packages: vec![
            desc("x", v(1, 2, 0), vec![]),
            desc("x", v(1, 5, 0), vec![]),
            desc("x", v(2, 0, 0), vec![]),
            desc("y", v(9, 9, 9), vec![]),
        ],
    };
    let sel = VersionSelector::Ranges {
        ranges: vec![b"^1.0.0".to_vec()],
        editor: None,
        allow_prerelease: false,
    };
    let p = env.find_package_by_name(&"x".to_owned(), &sel).expect("found");
    assert!(p.version.ver_eq(&v(1, 5, 0)));
    let exact = VersionSelector::Specific { version: v(1, 2, 0) };
    let q = env.find_package_by_name(&"x".to_owned(), &exact).expect("found");
    assert!(q.version.ver_eq(&v(1, 2, 0)));
    assert!(env.find_package_by_name(&"z".to_owned(), &exact).is_none());
}

#[test]
fn resolve_satisfies_locked_entries() {
    let mut m = Manifest::new();
    m.set_locked("foo".to_owned(), v(1, 0, 0), vec![]);
    let mut p = project(m, vec![]);
    let env = Environment {
        packages: vec![desc("foo", v(1, 0, 0), vec![]), desc("foo", v(2, 0, 0), vec![])],
    };
    let r = p.resolve(&env).expect("resolves");
    assert_eq!(r.installed_from_locked().len(), 1);
    assert_eq!(r.installed_from_locked()[0].name, "foo");
    assert!(r.installed_from_locked()[0].version.ver_eq(&v(1, 0, 0)));
    assert!(r.installed_from_unlocked_dependencies().is_empty());
}

#[test]
fn resolve_missing_locked_dependency_fails_without_commit() {
    let mut m = Manifest::new();
    m.set_locked("foo".to_owned(), v(1, 0, 0), vec![]);
    let mut p = project(m, vec![]);
    // only the wrong version is on offer
    let env = Environment { packages: vec![desc("foo", v(2, 0, 0), vec![])] };
    match p.resolve(&env) {
        Err(ResolvePackageErr::DependencyNotFound { dependency_name }) => {
            assert_eq!(dependency_name, "foo");
        },
        other => panic!("expected DependencyNotFound, got {:?}", other.is_ok()),
    }
    // nothing changed
    assert_eq!(p.locked_packages().len(), 1);
    assert!(p.is_locked(&"foo".to_owned()));
}

#[test]
fn resolve_locks_unlocked_dependencies() {
    let unlocked = vec![dir("a", Some(desc("a", v(1, 0, 0), vec![dep("x", "^1.0.0")])))];
    let mut p = project(Manifest::new(), unlocked);
    let env = Environment {
        packages: vec![desc("x", v(1, 2, 0), vec![]), desc("x", v(1, 5, 0), vec![])],
    };
    let r = p.resolve(&env).expect("resolves");
    assert_eq!(r.installed_from_unlocked_dependencies().len(), 1);
    assert_eq!(r.installed_from_unlocked_dependencies()[0].name, "x");
    assert!(r.installed_from_unlocked_dependencies()[0].version.ver_eq(&v(1, 5, 0)));
    assert!(p.is_locked(&"x".to_owned()));
}

#[test]
fn resolve_walks_transitive_dependencies() {
    let unlocked = vec![dir("a", Some(desc("a", v(1, 0, 0), vec![dep("x", "^1.0.0")])))];
    let mut p = project(Manifest::new(), unlocked);
    let env = Environment {
        packages: vec![
            desc("x", v(1, 2, 0), vec![dep("y", "^2.0.0")]),
            desc("y", v(2, 3, 0), vec![]),
        ],
    };
    let r = p.resolve(&env).expect("resolves");
    assert_eq!(r.installed_from_unlocked_dependencies().len(), 2);
    assert!(p.is_locked(&"x".to_owned()));
    assert!(p.is_locked(&"y".to_owned()));
}

#[test]
fn resolve_conflict_commits_nothing() {
    let unlocked = vec![
        dir("a", Some(desc("a", v(1, 0, 0), vec![dep("x", "^1.0.0")]))),
        dir("b", Some(desc("b", v(1, 0, 0), vec![dep("x", "^2.0.0")]))),
    ];
    let mut p = project(Manifest::new(), unlocked);
    let env = Environment {
        packages: vec![desc("x", v(1, 5, 0), vec![]), desc("x", v(2, 5, 0), vec![])],
    };
    match p.resolve(&env) {
        Err(err) => {
            match &err {
                ResolvePackageErr::ConflictWithDependencies { conflict, dependency_name } => {
                    assert_eq!(conflict, "x");
                    // the first requirer in insertion order is reported
                    assert_eq!(dependency_name, "a");
                },
                _ => panic!("expected a conflict"),
            }
            assert_eq!(err.message(), "x conflicts with a");
        },
        Ok(_) => panic!("expected a conflict"),
    }
    // neither closure was committed
    assert_eq!(p.locked_packages().len(), 0);
}

#[test]
fn error_messages_render_like_display() {
    let nf = ResolvePackageErr::DependencyNotFound { dependency_name: "pkg.x".to_owned() };
    assert_eq!(nf.message(), "Package pkg.x (maybe dependencies of the package) not found");
}

#[test]
fn prerelease_pinned_by_range_relaxes_closure() {
    fn vpre(major: u64, minor: u64, patch: u64, pre: &str) -> Version {
        Version { major, minor, patch, pre: pre.as_bytes().to_vec() }
    }
    // a requires x at a pinned pre-release; x depends on y, which only
    // exists as a pre-release: the single pre-release pin relaxes the
    // closure globally
    let unlocked = vec![dir("a", Some(desc("a", v(1, 0, 0), vec![dep("x", "=2.0.0-beta")])))];
    let mut p = project(Manifest::new(), unlocked);
    let env = Environment {
        packages: vec![
            desc("x", vpre(2, 0, 0, "beta"), vec![dep("y", "^1.0.0")]),
            desc("y", vpre(1, 5, 0, "rc"), vec![]),
        ],
    };
    let r = p.resolve(&env).expect("resolves");
    assert_eq!(r.installed_from_unlocked_dependencies().len(), 2);
    assert!(p.is_locked(&"x".to_owned()));
    assert!(p.is_locked(&"y".to_owned()));
}

#[test]
fn resolve_twice_installs_nothing_new() {
    let unlocked = vec![dir("a", Some(desc("a", v(1, 0, 0), vec![dep("x", "^1.0.0")])))];
    let mut p = project(Manifest::new(), unlocked);
    let env = Environment {
        packages: vec![desc("x", v(1, 2, 0), vec![])],
    };
    let first = p.resolve(&env).expect("resolves");
    assert_eq!(first.installed_from_unlocked_dependencies().len(), 1);
    let locked_after_first = p.locked_packages().len();
    let second = p.resolve(&env).expect("resolves again");
    assert!(second.installed_from_unlocked_dependencies().is_empty());
    assert_eq!(p.locked_packages().len(), locked_after_first);
}

#[test]
fn gui_config_defaults() {
    assert_eq!(language_default(), "en");
    assert_eq!(backup_default(), "default");
    assert_eq!(project_sorting_default(), "lastModified");
    let w = WindowSize::default();
    assert_eq!((w.width, w.height), (1000, 800));
    let c = GuiConfig::default();
    assert!(c.gui_hidden_repositories.is_empty());
    assert!(!c.hide_local_user_packages);
    assert_eq!(c.language, "en");
}

#[test]
fn prerelease_is_inadmissible_unless_allowed() {
    let only_pre = Environment {
        packages: vec![desc(
            "x",
            Version { major: 1, minor: 2, patch: 0, pre: b"beta".to_vec() },
            vec![],
        )],
    };
    let strict = VersionSelector::Ranges {
        ranges: vec![b"^1.0.0".to_vec()],
        editor: None,
        allow_prerelease: false,
    };
    assert!(only_pre.find_package_by_name(&"x".to_owned(), &strict).is_none());
    let relaxed = VersionSelector::Ranges {
        ranges: vec![b"^1.0.0".to_vec()],
        editor: None,
        allow_prerelease: true,
    };
    assert!(only_pre.find_package_by_name(&"x".to_owned(), &relaxed).is_some());
}

#[test]
fn editor_version_gates_candidates() {
    let needs_new_editor = PackageDescriptor {
        name: "x".to_owned(),
        version: v(1, 0, 0),
        dependencies: vec![],
        unity: Some(UnityVersion { major: 2022, minor: 3, revision: 0 }),
    };
    let env = Environment { packages: vec![needs_new_editor] };
    let old_editor = VersionSelector::Ranges {
        ranges: vec![b"^1.0.0".to_vec()],
        editor: Some(UnityVersion { major: 2019, minor: 4, revision: 31 }),
        allow_prerelease: false,
    };
    assert!(env.find_package_by_name(&"x".to_owned(), &old_editor).is_none());
    let new_editor = VersionSelector::Ranges {
        ranges: vec![b"^1.0.0".to_vec()],
        editor: Some(UnityVersion { major: 2022, minor: 3, revision: 6 }),
        allow_prerelease: false,
    };
    assert!(env.find_package_by_name(&"x".to_owned(), &new_editor).is_some());
}

#[test]
fn resolve_covers_every_locked_entry() {
    let mut m = Manifest::new();
    m.set_locked("one".to_owned(), v(1, 0, 0), vec![]);
    m.set_locked("two".to_owned(), v(2, 0, 0), vec![]);
    let mut p = project(m, vec![]);
    let env = Environment {
        packages: vec![desc("one", v(1, 0, 0), vec![]), desc("two", v(2, 0, 0), vec![])],
    };
    let r = p.resolve(&env).expect("resolves");
    let locked = p.locked_packages();
    assert_eq!(r.installed_from_locked().len(), locked.len());
    for i in 0..locked.len() {
        assert_eq!(r.installed_from_locked()[i].name, locked[i].name);
        assert!(r.installed_from_locked()[i].version.ver_eq(&locked[i].version));
    }
}

#[test]
fn all_packages_chains_locked_and_unlocked() {
    let mut m = Manifest::new();
    m.set_locked("locked.pkg".to_owned(), v(1, 0, 0), vec![]);
    let unlocked = vec![
        dir("loose", Some(desc("loose.pkg", v(0, 2, 0), vec![dep("x", "*")]))),
        dir("broken", None),
    ];
    let p = project(m, unlocked);
    let all = p.all_packages();
    assert_eq!(all.len(), 2);
    assert_eq!(all[0].name, "locked.pkg");
    assert_eq!(all[1].name, "loose.pkg");
    assert!(all[1].version.ver_eq(&v(0, 2, 0)));
    assert_eq!(all[1].dependencies.len(), 1);
}

#[test]
fn resolve_reports_first_missing_locked_entry() {
    let mut m = Manifest::new();
    m.set_locked("first.missing".to_owned(), v(1, 0, 0), vec![]);
    m.set_locked("second.missing".to_owned(), v(2, 0, 0), vec![]);
    let mut p = project(m, vec![]);
    let env = Environment { packages: vec![] };
    match p.resolve(&env) {
        Err(ResolvePackageErr::DependencyNotFound { dependency_name }) => {
            assert_eq!(dependency_name, "first.missing");
        },
        _ => panic!("expected the first missing locked entry"),
    }
}
