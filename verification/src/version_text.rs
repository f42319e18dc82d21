//! Textual form of versions: decimal numbers and the `major.minor.patch[-pre]`
//! grammar. `parse_version` accepts exactly the canonical renderings, so the
//! two functions are exact inverses.

use vstd::prelude::*;
use crate::semver::{is_pre_byte, Version, VersionV};

verus! {

pub open spec fn is_digit(b: u8) -> bool {
    48 <= b <= 57
}

pub open spec fn all_digits(s: Seq<u8>) -> bool {
    forall|i: int| 0 <= i < s.len() ==> is_digit(#[trigger] s[i])
}

/// Decimal rendering of a natural number, most significant digit first.
pub open spec fn dec_digits(n: nat) -> Seq<u8>
    decreases n,
{
    if n < 10 {
        seq![(n + 48) as u8]
    } else {
        dec_digits(n / 10).push((n % 10 + 48) as u8)
    }
}

/// Numeric value of a digit sequence.
pub open spec fn dec_value(s: Seq<u8>) -> nat
    decreases s.len(),
{
    if s.len() == 0 {
        0
    } else {
        (dec_value(s.drop_last()) * 10 + (s.last() - 48)) as nat
    }
}

/// A canonical number: nonempty digits with no leading zero (except "0").
pub open spec fn canonical_number(s: Seq<u8>) -> bool {
    &&& s.len() >= 1
    &&& all_digits(s)
    &&& (s.len() == 1 || s[0] != 48)
}

pub proof fn lemma_dec_digits_wf(n: nat)
    ensures
        dec_digits(n).len() >= 1,
        all_digits(dec_digits(n)),
        n > 0 ==> dec_digits(n)[0] != 48,
        n < 10 <==> dec_digits(n).len() == 1,
        canonical_number(dec_digits(n)),
    decreases n,
{
    if n >= 10 {
        lemma_dec_digits_wf(n / 10);
        assert(dec_digits(n)[0] == dec_digits(n / 10)[0]);
    }
}

pub proof fn lemma_dec_value_of_digits(n: nat)
    ensures
        dec_value(dec_digits(n)) == n,
    decreases n,
{
    assert(dec_value(Seq::<u8>::empty()) == 0);
    if n < 10 {
        assert(dec_digits(n).drop_last() =~= Seq::<u8>::empty());
        assert(dec_digits(n).last() == (n + 48) as u8);
        assert(((n + 48) as u8) - 48 == n);
    } else {
        lemma_dec_value_of_digits(n / 10);
        assert(dec_digits(n).drop_last() =~= dec_digits(n / 10));
        assert(dec_digits(n).last() == (n % 10 + 48) as u8);
        assert(((n % 10 + 48) as u8) - 48 == n % 10);
    }
}

proof fn lemma_dec_value_pos(s: Seq<u8>)
    requires
        all_digits(s),
        s.len() >= 1,
        s[0] != 48,
    ensures
        dec_value(s) >= 1,
    decreases s.len(),
{
    if s.len() > 1 {
        assert(s.drop_last()[0] == s[0]);
        lemma_dec_value_pos(s.drop_last());
    }
}

/// A canonical digit sequence is recovered from its value.
pub proof fn lemma_digits_of_dec_value(s: Seq<u8>)
    requires
        canonical_number(s),
    ensures
        dec_digits(dec_value(s)) =~= s,
    decreases s.len(),
{
    assert(dec_value(Seq::<u8>::empty()) == 0);
    if s.len() == 1 {
        assert(s.drop_last() =~= Seq::<u8>::empty());
        assert(is_digit(s[0]) && s.last() == s[0]);
        assert(dec_value(s) < 10);
        assert(dec_digits(dec_value(s)) =~= s);
    } else {
        let p = s.drop_last();
        assert(p[0] == s[0]);
        lemma_digits_of_dec_value(p);
        lemma_dec_value_pos(p);
        let a = dec_value(p);
        let d = (s.last() - 48) as nat;
        assert(d < 10);
        assert(dec_value(s) == a * 10 + d);
        assert((a * 10 + d) / 10 == a && (a * 10 + d) % 10 == d) by (nonlinear_arith)
            requires d < 10;
        assert(a * 10 >= 10) by (nonlinear_arith)
            requires a >= 1;
        assert(dec_value(s) >= 10);
        assert(dec_digits(dec_value(s)) =~= dec_digits(a).push((d + 48) as u8));
        assert(dec_digits(dec_value(s)) =~= s);
    }
}

/// Extending a digit run never decreases its value.
proof fn lemma_dec_value_mono(s: Seq<u8>, t: Seq<u8>)
    requires
        s.len() <= t.len(),
        all_digits(t),
        forall|i: int| 0 <= i < s.len() ==> s[i] == t[i],
    ensures
        dec_value(s) <= dec_value(t),
    decreases t.len(),
{
    if t.len() > s.len() {
        assert(forall|i: int| 0 <= i < t.drop_last().len() ==> is_digit(#[trigger] t.drop_last()[i]));
        lemma_dec_value_mono(s, t.drop_last());
        assert(is_digit(t.last()));
        assert(dec_value(t) == dec_value(t.drop_last()) * 10 + (t.last() - 48));
        assert(dec_value(t.drop_last()) * 10 >= dec_value(t.drop_last())) by (nonlinear_arith);
    } else {
        assert(s =~= t);
    }
}

/// End of the digit run beginning at `i`.
pub open spec fn digit_run_end(s: Seq<u8>, i: int) -> int
    decreases s.len() - i,
{
    if i < s.len() && is_digit(s[i]) {
        digit_run_end(s, i + 1)
    } else {
        i
    }
}

pub proof fn lemma_digit_run_end(s: Seq<u8>, i: int)
    requires
        0 <= i <= s.len(),
    ensures
        i <= digit_run_end(s, i) <= s.len(),
        all_digits(s.subrange(i, digit_run_end(s, i))),
        digit_run_end(s, i) < s.len() ==> !is_digit(s[digit_run_end(s, i)]),
        i < s.len() && !is_digit(s[i]) ==> digit_run_end(s, i) == i,
    decreases s.len() - i,
{
    if i < s.len() && is_digit(s[i]) {
        lemma_digit_run_end(s, i + 1);
        let e = digit_run_end(s, i);
        assert(forall|j: int| i + 1 <= j < e ==>
            s.subrange(i + 1, e)[j - i - 1] == #[trigger] s[j]);
        assert(all_digits(s.subrange(i, e)));
    }
}

/// Parses the digit run that begins at `from`. Returns the value and the
/// index just past the run; `None` when there is no digit at `from` or the
/// value does not fit in a `u64`.
pub fn parse_number(s: &[u8], from: usize) -> (r: Option<(u64, usize)>)
    requires
        from <= s@.len(),
    ensures
        ({
            let e = digit_run_end(s@, from as int);
            match r {
                Some((v, j)) => {
                    &&& j == e
                    &&& from < j <= s@.len()
                    &&& v as nat == dec_value(s@.subrange(from as int, e))
                },
                None => {
                    e == from || dec_value(s@.subrange(from as int, e)) > u64::MAX
                },
            }
        }),
{
    proof {
        lemma_digit_run_end(s@, from as int);
    }
    let ghost e = digit_run_end(s@, from as int);
    if from >= s.len() || !(48 <= s[from] && s[from] <= 57) {
        return None;
    }
    let mut i: usize = from;
    let mut v: u64 = 0;
    while i < s.len() && 48 <= s[i] && s[i] <= 57
        invariant
            from <= i <= s@.len(),
            e == digit_run_end(s@, from as int),
            from as int <= e <= s@.len(),
            i <= e,
            all_digits(s@.subrange(from as int, e)),
            e < s@.len() ==> !is_digit(s@[e]),
            digit_run_end(s@, i as int) == e,
            v as nat == dec_value(s@.subrange(from as int, i as int)),
        decreases s@.len() - i,
    {
        let d: u8 = s[i] - 48;
        let v10 = match v.checked_mul(10) {
            Some(x) => x,
            None => {
                proof {
                    overflow_tail(s@, from as int, i as int, e, v as nat * 10);
                }
                return None;
            },
        };
        let vnew = match v10.checked_add(d as u64) {
            Some(x) => x,
            None => {
                proof {
                    overflow_tail(s@, from as int, i as int, e, v as nat * 10 + d as nat);
                }
                return None;
            },
        };
        proof {
            assert(s@.subrange(from as int, i + 1).drop_last()
                =~= s@.subrange(from as int, i as int));
        }
        v = vnew;
        i += 1;
    }
    proof {
        assert(i == e) by {
            if i < s@.len() {
                assert(digit_run_end(s@, i as int) == i);
            }
        }
    }
    Some((v, i))
}

/// The run's full value is at least the value through one more digit.
proof fn overflow_tail(s: Seq<u8>, from: int, i: int, e: int, low: nat)
    requires
        0 <= from <= i < e <= s.len(),
        all_digits(s.subrange(from, e)),
        low <= dec_value(s.subrange(from, i)) * 10 + (s[i] - 48),
        low > u64::MAX,
    ensures
        dec_value(s.subrange(from, e)) > u64::MAX,
{
    let step = s.subrange(from, i + 1);
    assert(step.drop_last() =~= s.subrange(from, i));
    assert(is_digit(s[i])) by {
        assert(s.subrange(from, e)[i - from] == s[i]);
    }
    assert(step.last() == s[i]);
    assert(dec_value(step) == dec_value(s.subrange(from, i)) * 10 + (s[i] - 48));
    assert(forall|k: int| 0 <= k < step.len() ==> step[k] == #[trigger] s.subrange(from, e)[k]);
    lemma_dec_value_mono(step, s.subrange(from, e));
}

/// Canonical text of a version: `major.minor.patch`, then `-pre` when the
/// pre-release tag is nonempty.
pub open spec fn render_version_spec(v: VersionV) -> Seq<u8> {
    dec_digits(v.major) + seq![46u8] + dec_digits(v.minor) + seq![46u8] + dec_digits(v.patch)
        + (if v.pre.len() == 0 { Seq::<u8>::empty() } else { seq![45u8] + v.pre })
}

/// Renders `n` in decimal.
pub fn render_number(n: u64) -> (r: Vec<u8>)
    ensures
        r@ =~= dec_digits(n as nat),
    decreases n,
{
    if n < 10 {
        let mut out: Vec<u8> = Vec::new();
        out.push((n as u8) + 48);
        out
    } else {
        let mut out = render_number(n / 10);
        out.push(((n % 10) as u8) + 48);
        out
    }
}

impl Version {
    /// Renders this version in its canonical text.
    pub fn render(&self) -> (r: Vec<u8>)
        ensures
            r@ =~= render_version_spec(self@),
    {
        let mut out = render_number(self.major);
        out.push(46);
        let mut mid = render_number(self.minor);
        append_bytes(&mut out, &mid);
        out.push(46);
        let mut tail = render_number(self.patch);
        append_bytes(&mut out, &tail);
        if self.pre.len() > 0 {
            out.push(45);
            append_bytes(&mut out, &self.pre);
        }
        out
    }
}

/// Appends `src` to `dst`.
pub fn append_bytes(dst: &mut Vec<u8>, src: &Vec<u8>)
    ensures
        final(dst)@ =~= old(dst)@ + src@,
{
    let mut i: usize = 0;
    while i < src.len()
        invariant
            i <= src@.len(),
            dst@ =~= old(dst)@ + src@.subrange(0, i as int),
        decreases src@.len() - i,
    {
        dst.push(src[i]);
        proof {
            assert(old(dst)@ + src@.subrange(0, i + 1)
                =~= (old(dst)@ + src@.subrange(0, i as int)).push(src@[i as int]));
        }
        i += 1;
    }
    proof {
        assert(src@.subrange(0, src@.len() as int) =~= src@);
    }
}

} // verus!
// The parser proper: a spec-level description of the grammar, the executable
// parser proved equal to it, and the round-trip law.

verus! {

/// Spec-level parse of the canonical version grammar. `None` when the text
/// is not the canonical rendering of any well-formed version.
pub open spec fn parse_version_spec(s: Seq<u8>) -> Option<VersionV> {
    let e1 = digit_run_end(s, 0);
    let n1 = s.subrange(0, e1);
    if e1 == 0 || !canonical_number(n1) || dec_value(n1) > u64::MAX
        || e1 >= s.len() || s[e1] != 46 {
        None
    } else {
        let e2 = digit_run_end(s, e1 + 1);
        let n2 = s.subrange(e1 + 1, e2);
        if e2 == e1 + 1 || !canonical_number(n2) || dec_value(n2) > u64::MAX
            || e2 >= s.len() || s[e2] != 46 {
            None
        } else {
            let e3 = digit_run_end(s, e2 + 1);
            let n3 = s.subrange(e2 + 1, e3);
            if e3 == e2 + 1 || !canonical_number(n3) || dec_value(n3) > u64::MAX {
                None
            } else {
                let core = VersionV {
                    major: dec_value(n1),
                    minor: dec_value(n2),
                    patch: dec_value(n3),
                    pre: Seq::<u8>::empty(),
                };
                if e3 == s.len() {
                    Some(core)
                } else if s[e3] == 45 && e3 + 1 < s.len()
                    && (forall|i: int| e3 + 1 <= i < s.len() ==> is_pre_byte(#[trigger] s[i])) {
                    Some(VersionV { pre: s.subrange(e3 + 1, s.len() as int), ..core })
                } else {
                    None
                }
            }
        }
    }
}

/// A digit block at `i`, followed by a non-digit or the end, is exactly the
/// digit run at `i`.
proof fn lemma_run_of_block(s: Seq<u8>, p: Seq<u8>, i: int)
    requires
        0 <= i,
        i + p.len() <= s.len(),
        all_digits(p),
        p.len() >= 1,
        forall|k: int| 0 <= k < p.len() ==> s[i + k] == p[k],
        i + p.len() == s.len() || !is_digit(s[i + p.len()]),
    ensures
        digit_run_end(s, i) == i + p.len(),
        s.subrange(i, i + p.len()) =~= p,
    decreases p.len(),
{
    assert(is_digit(s[i])) by {
        assert(s[i + 0] == p[0]);
    }
    if p.len() == 1 {
        assert(digit_run_end(s, i + 1) == i + 1);
    } else {
        let q = p.skip(1);
        assert(forall|k: int| 0 <= k < q.len() ==> s[i + 1 + k] == #[trigger] q[k]);
        assert(all_digits(q));
        lemma_run_of_block(s, q, i + 1);
    }
}

/// Round trip: the canonical text of a well-formed version parses back to it.
pub proof fn lemma_parse_render_roundtrip(v: VersionV)
    requires
        v.wf(),
        v.major <= u64::MAX,
        v.minor <= u64::MAX,
        v.patch <= u64::MAX,
    ensures
        parse_version_spec(render_version_spec(v)) == Some(v),
{
    let s = render_version_spec(v);
    let d1 = dec_digits(v.major);
    let d2 = dec_digits(v.minor);
    let d3 = dec_digits(v.patch);
    lemma_dec_digits_wf(v.major);
    lemma_dec_digits_wf(v.minor);
    lemma_dec_digits_wf(v.patch);
    lemma_dec_value_of_digits(v.major);
    lemma_dec_value_of_digits(v.minor);
    lemma_dec_value_of_digits(v.patch);
    let i2: int = d1.len() as int + 1;
    let i3: int = i2 + d2.len() + 1;
    let end3: int = i3 + d3.len();
    assert(s.len() == end3 + (if v.pre.len() == 0 { 0int } else { 1 + v.pre.len() as int }));
    assert(forall|k: int| 0 <= k < d1.len() ==> s[k] == #[trigger] d1[k]);
    assert(s[d1.len() as int] == 46);
    lemma_run_of_block(s, d1, 0);
    assert(forall|k: int| 0 <= k < d2.len() ==> s[i2 + k] == #[trigger] d2[k]);
    assert(i2 + d2.len() < s.len() && s[i2 + d2.len()] == 46);
    lemma_run_of_block(s, d2, i2);
    assert(forall|k: int| 0 <= k < d3.len() ==> s[i3 + k] == #[trigger] d3[k]);
    assert(end3 == s.len() || !is_digit(s[end3])) by {
        if end3 < s.len() {
            assert(s[end3] == 45);
        }
    }
    lemma_run_of_block(s, d3, i3);
    if v.pre.len() == 0 {
        assert(parse_version_spec(s) == Some(VersionV {
            major: dec_value(d1),
            minor: dec_value(d2),
            patch: dec_value(d3),
            pre: Seq::<u8>::empty(),
        }));
        assert(Some(VersionV {
            major: dec_value(d1),
            minor: dec_value(d2),
            patch: dec_value(d3),
            pre: Seq::<u8>::empty(),
        }) =~= Some(v));
    } else {
        assert(s[end3] == 45);
        assert(forall|i: int| end3 + 1 <= i < s.len()
            ==> #[trigger] s[i] == v.pre[i - end3 - 1]);
        assert(forall|i: int| end3 + 1 <= i < s.len() ==> is_pre_byte(#[trigger] s[i]));
        assert(s.subrange(end3 + 1, s.len() as int) =~= v.pre);
        assert(parse_version_spec(s) == Some(VersionV {
            major: dec_value(d1),
            minor: dec_value(d2),
            patch: dec_value(d3),
            pre: s.subrange(end3 + 1, s.len() as int),
        }));
        assert(Some(VersionV {
            major: dec_value(d1),
            minor: dec_value(d2),
            patch: dec_value(d3),
            pre: s.subrange(end3 + 1, s.len() as int),
        }) =~= Some(v));
    }
}

/// Copies `s[from..]` into a fresh vector.
pub fn bytes_from(s: &[u8], from: usize) -> (r: Vec<u8>)
    requires
        from <= s@.len(),
    ensures
        r@ =~= s@.subrange(from as int, s@.len() as int),
{
    let mut out: Vec<u8> = Vec::new();
    let mut i: usize = from;
    while i < s.len()
        invariant
            from <= i <= s@.len(),
            out@ =~= s@.subrange(from as int, i as int),
        decreases s@.len() - i,
    {
        out.push(s[i]);
        proof {
            assert(s@.subrange(from as int, i + 1)
                =~= s@.subrange(from as int, i as int).push(s@[i as int]));
        }
        i += 1;
    }
    out
}

/// Parses the canonical text of a version; the result is exactly what the
/// grammar (`parse_version_spec`) says.
#[verifier::loop_isolation(false)]
pub fn parse_version(s: &[u8]) -> (r: Option<Version>)
    ensures
        match r {
            Some(v) => parse_version_spec(s@) == Some(v@) && v@.wf() && v@.bounded(),
            None => parse_version_spec(s@) is None,
        },
{
    proof {
        lemma_digit_run_end(s@, 0);
    }
    let (major, e1) = match parse_number(s, 0) {
        Some(x) => x,
        None => { return None; },
    };
    if e1 - 0 > 1 && s[0] == 48 {
        return None;
    }
    if e1 >= s.len() || s[e1] != 46 {
        return None;
    }
    proof {
        lemma_digit_run_end(s@, e1 + 1);
    }
    let (minor, e2) = match parse_number(s, e1 + 1) {
        Some(x) => x,
        None => { return None; },
    };
    if e2 - (e1 + 1) > 1 && s[e1 + 1] == 48 {
        return None;
    }
    if e2 >= s.len() || s[e2] != 46 {
        return None;
    }
    proof {
        lemma_digit_run_end(s@, e2 + 1);
    }
    let (patch, e3) = match parse_number(s, e2 + 1) {
        Some(x) => x,
        None => { return None; },
    };
    if e3 - (e2 + 1) > 1 && s[e2 + 1] == 48 {
        return None;
    }
    if e3 == s.len() {
        return Some(Version { major, minor, patch, pre: Vec::new() });
    }
    if s[e3] != 45 || e3 + 1 >= s.len() {
        return None;
    }
    let mut i: usize = e3 + 1;
    while i < s.len()
        invariant
            e3 + 1 <= i <= s@.len(),
            forall|j: int| e3 + 1 <= j < i ==> is_pre_byte(#[trigger] s@[j]),
        decreases s@.len() - i,
    {
        let b = s[i];
        if !((48 <= b && b <= 57) || (65 <= b && b <= 90) || (97 <= b && b <= 122)
            || b == 46 || b == 45) {
            return None;
        }
        i += 1;
    }
    let pre = bytes_from(s, e3 + 1);
    Some(Version { major, minor, patch, pre })
}

impl Version {
    /// An exact copy of this version.
    pub fn duplicate(&self) -> (r: Version)
        ensures
            r@ =~= self@,
    {
        let mut pre: Vec<u8> = Vec::new();
        append_bytes(&mut pre, &self.pre);
        Version { major: self.major, minor: self.minor, patch: self.patch, pre }
    }
}

} // verus!
