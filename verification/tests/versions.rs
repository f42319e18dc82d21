use vrc_get_vpm::semver::Version;
use vrc_get_vpm::unity::{parse_editor_version, UnityVersion};
use vrc_get_vpm::version_text::{parse_version, render_number};
use vrc_get_vpm::ranges::VersionRange;

fn v(major: u64, minor: u64, patch: u64) -> Version {
    Version { major, minor, patch, pre: Vec::new() }
}

fn vpre(major: u64, minor: u64, patch: u64, pre: &str) -> Version {
    Version { major, minor, patch, pre: pre.as_bytes().to_vec() }
}

#[test]
fn render_number_decimal() {
    assert_eq!(render_number(0), b"0".to_vec());
    assert_eq!(render_number(42), b"42".to_vec());
    assert_eq!(render_number(18446744073709551615), b"18446744073709551615".to_vec());
}

#[test]
fn parse_version_roundtrip() {
    let p = parse_version(b"1.2.3-beta.1").expect("parses");
    assert_eq!(p.major, 1);
    assert_eq!(p.minor, 2);
    assert_eq!(p.patch, 3);
    assert_eq!(p.pre, b"beta.1".to_vec());
    assert_eq!(p.render(), b"1.2.3-beta.1".to_vec());

    let q = parse_version(b"10.0.7").expect("parses");
    assert_eq!(q.render(), b"10.0.7".to_vec());
}

#[test]
fn parse_version_rejects_bad_text() {
    assert!(parse_version(b"01.2.3").is_none());
    assert!(parse_version(b"1.2").is_none());
    assert!(parse_version(b"1.2.3 ").is_none());
    assert!(parse_version(b"").is_none());
    assert!(parse_version(b"1.2.3-").is_none());
    assert!(parse_version(b"99999999999999999999.0.0").is_none());
}

#[test]
fn version_ordering() {
    assert!(v(1, 2, 3).ver_lt(&v(1, 10, 0)));
    assert!(v(1, 9, 9).ver_lt(&v(2, 0, 0)));
    assert!(!v(2, 0, 0).ver_lt(&v(1, 9, 9)));
    // a pre-release sorts before its release
    assert!(vpre(1, 0, 0, "alpha").ver_lt(&v(1, 0, 0)));
    assert!(!v(1, 0, 0).ver_lt(&vpre(1, 0, 0, "alpha")));
    assert!(vpre(1, 0, 0, "alpha").ver_lt(&vpre(1, 0, 0, "beta")));
    assert!(v(1, 2, 3).ver_eq(&v(1, 2, 3)));
    assert!(!v(1, 2, 3).ver_eq(&vpre(1, 2, 3, "rc")));
}

#[test]
fn prerelease_identifier_ordering() {
    // numeric identifiers compare as numbers
    assert!(vpre(1, 0, 0, "alpha.2").ver_lt(&vpre(1, 0, 0, "alpha.11")));
    assert!(!vpre(1, 0, 0, "alpha.11").ver_lt(&vpre(1, 0, 0, "alpha.2")));
    // a numeric identifier sorts below an alphanumeric one
    assert!(vpre(1, 0, 0, "11").ver_lt(&vpre(1, 0, 0, "1a")));
    // a strict identifier prefix sorts first
    assert!(vpre(1, 0, 0, "alpha").ver_lt(&vpre(1, 0, 0, "alpha.1")));
    // alphanumeric identifiers compare bytewise
    assert!(vpre(1, 0, 0, "alpha").ver_lt(&vpre(1, 0, 0, "beta")));
    assert!(vpre(1, 0, 0, "alpha.beta").ver_lt(&vpre(1, 0, 0, "beta.alpha")));
}

#[test]
fn range_caret_and_tilde() {
    assert!(VersionRange::text_matches(b"^1.0.0", &v(1, 5, 0)));
    assert!(!VersionRange::text_matches(b"^1.0.0", &v(2, 0, 0)));
    assert!(!VersionRange::text_matches(b"^1.1.0", &v(1, 0, 9)));
    assert!(VersionRange::text_matches(b"^0.2.1", &v(0, 2, 5)));
    assert!(!VersionRange::text_matches(b"^0.2.1", &v(0, 3, 0)));
    assert!(VersionRange::text_matches(b"~1.2.3", &v(1, 2, 9)));
    assert!(!VersionRange::text_matches(b"~1.2.3", &v(1, 3, 0)));
}

#[test]
fn range_bounds_union_and_wildcard() {
    assert!(VersionRange::text_matches(b">=1.0.0 <2.0.0", &v(1, 5, 0)));
    assert!(!VersionRange::text_matches(b">=1.0.0 <2.0.0", &v(2, 5, 0)));
    assert!(VersionRange::text_matches(b">=1.0.0 <2.0.0 || ^3.0.0", &v(3, 1, 0)));
    assert!(!VersionRange::text_matches(b">=1.0.0 <2.0.0 || ^3.0.0", &v(2, 5, 0)));
    assert!(VersionRange::text_matches(b"*", &v(9, 9, 9)));
    assert!(VersionRange::text_matches(b"1.2.3", &v(1, 2, 3)));
    assert!(!VersionRange::text_matches(b"1.2.3", &v(1, 2, 4)));
    assert!(VersionRange::text_matches(b"=1.2.3", &v(1, 2, 3)));
    assert!(VersionRange::text_matches(b">1.2.3 <=2.0.0", &v(2, 0, 0)));
    assert!(!VersionRange::text_matches(b">1.2.3", &v(1, 2, 3)));
}

#[test]
fn range_invalid_text_matches_nothing() {
    assert!(VersionRange::parse(b"").is_none());
    assert!(VersionRange::parse(b"|| ^1.0.0").is_none());
    assert!(VersionRange::parse(b"^1.0.0 ||").is_none());
    assert!(VersionRange::parse(b"nonsense").is_none());
    assert!(!VersionRange::text_matches(b"nonsense", &v(1, 0, 0)));
}

#[test]
fn editor_version_from_marker() {
    let u = parse_editor_version(b"m_EditorVersion: 2022.3.6f1\nm_EditorVersionWithRevision: x")
        .expect("parses");
    assert_eq!(u, UnityVersion { major: 2022, minor: 3, revision: 6 });
}

#[test]
fn editor_version_skips_blanks_like_trimming() {
    let u = parse_editor_version(b"m_EditorVersion:\t2022.3.6f1\n").expect("parses");
    assert_eq!(u, UnityVersion { major: 2022, minor: 3, revision: 6 });
}

#[test]
fn editor_version_tolerates_corrupt_text() {
    assert!(parse_editor_version(b"").is_none());
    assert!(parse_editor_version(b"no marker here").is_none());
    assert!(parse_editor_version(b"m_EditorVersion: garbage").is_none());
    assert!(parse_editor_version(b"m_EditorVersion: 2022").is_none());
}

#[test]
fn editor_version_ordering() {
    let a = UnityVersion { major: 2019, minor: 4, revision: 31 };
    let b = UnityVersion { major: 2022, minor: 3, revision: 6 };
    assert!(a.le(&b));
    assert!(!b.le(&a));
    assert!(b.le(&b));
}
