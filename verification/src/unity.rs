//! The editor version: its value type, order, and the tolerant reader for
//! the `ProjectVersion.txt` marker line.

use vstd::prelude::*;
use crate::version_text::{digit_run_end, dec_value, lemma_digit_run_end, parse_number};

verus! {

/// An editor version, `major.minor.revision` (the trailing release suffix of
/// the marker line is ignored).
#[derive(Clone, Copy, Debug, PartialEq, Eq, Structural)]
pub struct UnityVersion {
    pub major: u64,
    pub minor: u64,
    pub revision: u64,
}

/// Lexicographic order on editor versions.
pub open spec fn unity_le(a: UnityVersion, b: UnityVersion) -> bool {
    if a.major != b.major {
        a.major < b.major
    } else if a.minor != b.minor {
        a.minor < b.minor
    } else {
        a.revision <= b.revision
    }
}

impl UnityVersion {
    pub fn le(&self, other: &UnityVersion) -> (r: bool)
        ensures
            r == unity_le(*self, *other),
    {
        if self.major != other.major {
            self.major < other.major
        } else if self.minor != other.minor {
            self.minor < other.minor
        } else {
            self.revision <= other.revision
        }
    }
}

/// The marker that precedes the version in `ProjectVersion.txt`.
pub open spec fn marker_bytes() -> Seq<u8> {
    // m_EditorVersion:
    seq![109u8, 95u8, 69u8, 100u8, 105u8, 116u8, 111u8, 114u8, 86u8, 101u8, 114u8, 115u8,
        105u8, 111u8, 110u8, 58u8]
}

pub open spec fn is_marker_at(s: Seq<u8>, i: int) -> bool {
    i + 16 <= s.len() && s.subrange(i, i + 16) =~= marker_bytes()
}

/// First position of the marker at or after `i`, or `-1`.
pub open spec fn marker_from(s: Seq<u8>, i: int) -> int
    decreases s.len() - i,
{
    if i + 16 > s.len() {
        -1
    } else if is_marker_at(s, i) {
        i
    } else {
        marker_from(s, i + 1)
    }
}

/// A blank byte that trimming would remove: space, tab, vertical tab, or
/// form feed.
pub open spec fn is_blank(b: u8) -> bool {
    b == 32 || b == 9 || b == 11 || b == 12
}

pub open spec fn skip_blanks(s: Seq<u8>, i: int) -> int
    decreases s.len() - i,
{
    if i < s.len() && is_blank(s[i]) {
        skip_blanks(s, i + 1)
    } else {
        i
    }
}

proof fn lemma_skip_blanks(s: Seq<u8>, i: int)
    requires
        0 <= i <= s.len(),
    ensures
        i <= skip_blanks(s, i) <= s.len(),
    decreases s.len() - i,
{
    if i < s.len() && is_blank(s[i]) {
        lemma_skip_blanks(s, i + 1);
    }
}

proof fn lemma_marker_from(s: Seq<u8>, i: int)
    requires
        0 <= i,
    ensures
        marker_from(s, i) == -1 || i <= marker_from(s, i) <= s.len() - 16,
        marker_from(s, i) >= 0 ==> is_marker_at(s, marker_from(s, i)),
    decreases s.len() - i,
{
    if i + 16 <= s.len() && !is_marker_at(s, i) {
        lemma_marker_from(s, i + 1);
    }
}

/// The editor version the marker line declares, or `None` when there is no
/// marker, no well-formed `major.minor.revision` after it, or a component
/// too large for a `u64`.
pub open spec fn editor_version_sem(s: Seq<u8>) -> Option<UnityVersion> {
    let p = marker_from(s, 0);
    if p < 0 {
        None
    } else {
        let c = skip_blanks(s, p + 16);
        let e1 = digit_run_end(s, c);
        if e1 == c || dec_value(s.subrange(c, e1)) > u64::MAX || e1 >= s.len() || s[e1] != 46 {
            None
        } else {
            let e2 = digit_run_end(s, e1 + 1);
            if e2 == e1 + 1 || dec_value(s.subrange(e1 + 1, e2)) > u64::MAX
                || e2 >= s.len() || s[e2] != 46 {
                None
            } else {
                let e3 = digit_run_end(s, e2 + 1);
                if e3 == e2 + 1 || dec_value(s.subrange(e2 + 1, e3)) > u64::MAX {
                    None
                } else {
                    Some(UnityVersion {
                        major: dec_value(s.subrange(c, e1)) as u64,
                        minor: dec_value(s.subrange(e1 + 1, e2)) as u64,
                        revision: dec_value(s.subrange(e2 + 1, e3)) as u64,
                    })
                }
            }
        }
    }
}

/// Reads the editor version out of the text of `ProjectVersion.txt`.
/// Never fails: absent or corrupt content yields `None`.
#[verifier::loop_isolation(false)]
pub fn parse_editor_version(s: &[u8]) -> (r: Option<UnityVersion>)
    ensures
        r == editor_version_sem(s@),
{
    proof {
        lemma_marker_from(s@, 0);
    }
    let marker: [u8; 16] = [109, 95, 69, 100, 105, 116, 111, 114, 86, 101, 114, 115, 105,
        111, 110, 58];
    if s.len() < 16 {
        return None;
    }
    let mut p: usize = 0;
    let mut found = false;
    while !found && p <= s.len() - 16
        invariant
            s@.len() >= 16,
            0 <= p <= s@.len(),
            found ==> p + 16 <= s@.len() && is_marker_at(s@, p as int),
            !found ==> marker_from(s@, 0) == marker_from(s@, p as int),
            found ==> marker_from(s@, 0) == p as int,
        decreases s@.len() - p + (if found { 0int } else { 1int }),
    {
        let mut k: usize = 0;
        let mut same = true;
        while k < 16
            invariant
                k <= 16,
                p + 16 <= s@.len(),
                same == (forall|j: int| 0 <= j < k ==> s@[p + j] == marker_bytes()[j]),
            decreases 16 - k,
        {
            if s[p + k] != marker[k] {
                proof {
                    assert(marker_bytes()[k as int] == marker[k as int]);
                }
                same = false;
            }
            k += 1;
        }
        if same {
            proof {
                assert(s@.subrange(p as int, p + 16) =~= marker_bytes());
            }
            found = true;
        } else {
            proof {
                assert(!is_marker_at(s@, p as int)) by {
                    if is_marker_at(s@, p as int) {
                        assert(forall|j: int| 0 <= j < 16
                            ==> s@[p + j] == #[trigger] s@.subrange(p as int, p + 16)[j]);
                    }
                }
            }
            p += 1;
        }
    }
    if !found {
        return None;
    }
    assert(p as int == marker_from(s@, 0));
    let mut c: usize = p + 16;
    while c < s.len() && (s[c] == 32 || s[c] == 9 || s[c] == 11 || s[c] == 12)
        invariant
            p + 16 <= c <= s@.len(),
            skip_blanks(s@, p + 16) == skip_blanks(s@, c as int),
        decreases s@.len() - c,
    {
        c += 1;
    }
    assert(c as int == skip_blanks(s@, p + 16));
    proof {
        lemma_digit_run_end(s@, c as int);
    }
    let (major, e1) = match parse_number(s, c) {
        Some(x) => x,
        None => { return None; },
    };
    if e1 >= s.len() || s[e1] != 46 {
        return None;
    }
    proof {
        lemma_digit_run_end(s@, e1 + 1);
    }
    let (minor, e2) = match parse_number(s, e1 + 1) {
        Some(x) => x,
        None => { return None; },
    };
    if e2 >= s.len() || s[e2] != 46 {
        return None;
    }
    proof {
        lemma_digit_run_end(s@, e2 + 1);
    }
    let (revision, _e3) = match parse_number(s, e2 + 1) {
        Some(x) => x,
        None => { return None; },
    };
    Some(UnityVersion { major, minor, revision })
}

} // verus!
// The editor requirement a package declares, `major.minor` with an optional
// revision, as its descriptor carries it.

verus! {

/// The editor requirement `major.minor[.revision]`, or `None` when the text
/// is not of that form or a component is too large for a `u64`.
pub open spec fn unity_req_sem(s: Seq<u8>) -> Option<UnityVersion> {
    let e1 = digit_run_end(s, 0);
    if e1 == 0 || dec_value(s.subrange(0, e1)) > u64::MAX || e1 >= s.len() || s[e1] != 46 {
        None
    } else {
        let e2 = digit_run_end(s, e1 + 1);
        if e2 == e1 + 1 || dec_value(s.subrange(e1 + 1, e2)) > u64::MAX {
            None
        } else {
            let core = UnityVersion {
                major: dec_value(s.subrange(0, e1)) as u64,
                minor: dec_value(s.subrange(e1 + 1, e2)) as u64,
                revision: 0,
            };
            if e2 == s.len() {
                Some(core)
            } else if s[e2] != 46 {
                None
            } else {
                let e3 = digit_run_end(s, e2 + 1);
                if e3 == e2 + 1 || dec_value(s.subrange(e2 + 1, e3)) > u64::MAX
                    || e3 != s.len() {
                    None
                } else {
                    Some(UnityVersion {
                        revision: dec_value(s.subrange(e2 + 1, e3)) as u64,
                        ..core
                    })
                }
            }
        }
    }
}

/// Parses a declared editor requirement such as `2019.4` or `2022.3.6`.
pub fn parse_unity_req(s: &[u8]) -> (r: Option<UnityVersion>)
    ensures
        r == unity_req_sem(s@),
{
    proof {
        lemma_digit_run_end(s@, 0);
    }
    let (major, e1) = match parse_number(s, 0) {
        Some(x) => x,
        None => { return None; },
    };
    if e1 >= s.len() || s[e1] != 46 {
        return None;
    }
    proof {
        lemma_digit_run_end(s@, e1 + 1);
    }
    let (minor, e2) = match parse_number(s, e1 + 1) {
        Some(x) => x,
        None => { return None; },
    };
    if e2 == s.len() {
        return Some(UnityVersion { major, minor, revision: 0 });
    }
    if s[e2] != 46 {
        return None;
    }
    proof {
        lemma_digit_run_end(s@, e2 + 1);
    }
    let (revision, e3) = match parse_number(s, e2 + 1) {
        Some(x) => x,
        None => { return None; },
    };
    if e3 != s.len() {
        return None;
    }
    Some(UnityVersion { major, minor, revision })
}

} // verus!
