//! Semantic versions: the value type, its ordering, and the textual form
//! `major.minor.patch[-pre]` with an exact parse/render pair.

use vstd::prelude::*;

verus! {

/// A semantic version: `major.minor.patch`, optionally followed by a
/// pre-release tag (`1.2.3-beta.1`). An empty `pre` means a release version.
#[derive(Debug)]
pub struct Version {
    pub major: u64,
    pub minor: u64,
    pub patch: u64,
    pub pre: Vec<u8>,
}

/// Mathematical value of a `Version`.
#[verifier::ext_equal]
pub ghost struct VersionV {
    pub major: nat,
    pub minor: nat,
    pub patch: nat,
    pub pre: Seq<u8>,
}

impl View for Version {
    type V = VersionV;

    open spec fn view(&self) -> VersionV {
        VersionV {
            major: self.major as nat,
            minor: self.minor as nat,
            patch: self.patch as nat,
            pre: self.pre@,
        }
    }
}

/// Bytes allowed inside a pre-release tag: ASCII alphanumerics, `.` and `-`.
pub open spec fn is_pre_byte(b: u8) -> bool {
    (48 <= b <= 57) || (65 <= b <= 90) || (97 <= b <= 122) || b == 46 || b == 45
}

impl VersionV {
    /// A well-formed version has a pre-release tag made only of tag bytes,
    /// not starting with a digit run that has a leading zero issue; we only
    /// demand the byte alphabet here.
    pub open spec fn wf(self) -> bool {
        forall|i: int| 0 <= i < self.pre.len() ==> is_pre_byte(#[trigger] self.pre[i])
    }

    pub open spec fn is_release(self) -> bool {
        self.pre.len() == 0
    }

    /// Every component fits in a `u64` (true of every value a `Version`
    /// holds).
    pub open spec fn bounded(self) -> bool {
        self.major <= u64::MAX && self.minor <= u64::MAX && self.patch <= u64::MAX
    }
}

/// Lexicographic (bytewise) strict order on byte sequences.
pub open spec fn lex_lt(a: Seq<u8>, b: Seq<u8>) -> bool
    decreases a.len(),
{
    if b.len() == 0 {
        false
    } else if a.len() == 0 {
        true
    } else if a[0] < b[0] {
        true
    } else if a[0] == b[0] {
        lex_lt(a.skip(1), b.skip(1))
    } else {
        false
    }
}

/// Strict order on pre-release tags: a release (empty tag) sorts after every
/// pre-release; two pre-releases compare by dot-separated identifiers
/// (`ids_lt`).
pub open spec fn pre_lt(a: Seq<u8>, b: Seq<u8>) -> bool {
    if a.len() == 0 {
        false
    } else if b.len() == 0 {
        true
    } else {
        ids_lt(a, b)
    }
}

/// Strict order on versions: by major, minor, patch, then pre-release rank.
pub open spec fn version_lt(a: VersionV, b: VersionV) -> bool {
    if a.major != b.major {
        a.major < b.major
    } else if a.minor != b.minor {
        a.minor < b.minor
    } else if a.patch != b.patch {
        a.patch < b.patch
    } else {
        pre_lt(a.pre, b.pre)
    }
}

pub open spec fn version_le(a: VersionV, b: VersionV) -> bool {
    version_lt(a, b) || a == b
}

proof fn lemma_lex_lt_connected(a: Seq<u8>, b: Seq<u8>)
    ensures
        lex_lt(a, b) || lex_lt(b, a) || a =~= b,
    decreases a.len(),
{
    if b.len() == 0 || a.len() == 0 {
    } else if a[0] == b[0] {
        lemma_lex_lt_connected(a.skip(1), b.skip(1));
        if !lex_lt(a, b) && !lex_lt(b, a) {
            assert(a.skip(1) =~= b.skip(1));
            assert(a.len() == b.len());
            assert forall|i: int| 0 <= i < a.len() implies a[i] == b[i] by {
                if i >= 1 {
                    assert(a.skip(1)[i - 1] == a[i]);
                    assert(b.skip(1)[i - 1] == b[i]);
                }
            }
            assert(a =~= b);
        }
    }
}

proof fn lemma_lex_lt_trans(a: Seq<u8>, b: Seq<u8>, c: Seq<u8>)
    requires
        lex_lt(a, b),
        lex_lt(b, c),
    ensures
        lex_lt(a, c),
    decreases a.len(),
{
    if a.len() == 0 {
    } else {
        if a[0] == b[0] && b[0] == c[0] {
            lemma_lex_lt_trans(a.skip(1), b.skip(1), c.skip(1));
        }
    }
}

proof fn lemma_pre_lt_trans(a: Seq<u8>, b: Seq<u8>, c: Seq<u8>)
    requires
        pre_lt(a, b),
        pre_lt(b, c),
    ensures
        pre_lt(a, c),
{
    if a.len() > 0 && b.len() > 0 && c.len() > 0 {
        lemma_ids_lt_trans(a, b, c);
    }
}

/// The order on versions is transitive.
pub proof fn lemma_version_lt_trans(a: VersionV, b: VersionV, c: VersionV)
    requires
        version_lt(a, b),
        version_lt(b, c),
    ensures
        version_lt(a, c),
{
    if a.major == b.major && b.major == c.major && a.minor == b.minor && b.minor == c.minor
        && a.patch == b.patch && b.patch == c.patch {
        lemma_pre_lt_trans(a.pre, b.pre, c.pre);
    }
}

/// The non-strict order on versions is transitive.
pub proof fn lemma_version_le_trans(a: VersionV, b: VersionV, c: VersionV)
    requires
        version_le(a, b),
        version_le(b, c),
    ensures
        version_le(a, c),
{
    if version_lt(a, b) && version_lt(b, c) {
        lemma_version_lt_trans(a, b, c);
    }
}

/// The order on versions is connected: two versions that are not strictly
/// ordered either way are equal.
pub proof fn lemma_version_order_connected(a: VersionV, b: VersionV)
    ensures
        version_lt(a, b) || version_lt(b, a) || a =~= b,
{
    if a.major == b.major && a.minor == b.minor && a.patch == b.patch {
        lemma_ids_lt_connected(a.pre, b.pre);
    }
}

impl Version {
    /// Exact equality of two versions.
    pub fn ver_eq(&self, other: &Version) -> (r: bool)
        ensures
            r == (self@ =~= other@),
    {
        if !(self.major == other.major && self.minor == other.minor
            && self.patch == other.patch) {
            return false;
        }
        bytes_eq(&self.pre, &other.pre)
    }

    /// Strict comparison per the version order.
    pub fn ver_lt(&self, other: &Version) -> (r: bool)
        ensures
            r == version_lt(self@, other@),
    {
        if self.major != other.major {
            return self.major < other.major;
        }
        if self.minor != other.minor {
            return self.minor < other.minor;
        }
        if self.patch != other.patch {
            return self.patch < other.patch;
        }
        if self.pre.len() == 0 {
            return false;
        }
        if other.pre.len() == 0 {
            return true;
        }
        bytes_ids_lt(self.pre.as_slice(), other.pre.as_slice())
    }

    pub fn is_release(&self) -> (r: bool)
        ensures
            r == self@.is_release(),
    {
        self.pre.len() == 0
    }
}

/// Equality of two byte vectors.
pub fn bytes_eq(a: &Vec<u8>, b: &Vec<u8>) -> (r: bool)
    ensures
        r == (a@ =~= b@),
{
    if a.len() != b.len() {
        return false;
    }
    let mut i: usize = 0;
    while i < a.len()
        invariant
            i <= a.len(),
            a@.len() == b@.len(),
            forall|j: int| 0 <= j < i ==> a@[j] == b@[j],
        decreases a.len() - i,
    {
        if a[i] != b[i] {
            return false;
        }
        i += 1;
    }
    assert(a@ =~= b@);
    true
}

fn bytes_lex_lt(a: &Vec<u8>, b: &Vec<u8>) -> (r: bool)
    ensures
        r == lex_lt(a@, b@),
{
    let mut i: usize = 0;
    proof {
        assert(a@.skip(0) =~= a@);
        assert(b@.skip(0) =~= b@);
    }
    loop
        invariant
            i <= a.len(),
            i <= b.len(),
            forall|j: int| 0 <= j < i ==> a@[j] == b@[j],
            lex_lt(a@, b@) == lex_lt(a@.skip(i as int), b@.skip(i as int)),
        decreases a.len() - i,
    {
        if i >= b.len() {
            assert(b@.skip(i as int).len() == 0);
            return false;
        }
        if i >= a.len() {
            assert(a@.skip(i as int).len() == 0);
            return true;
        }
        assert(a@.skip(i as int)[0] == a@[i as int]);
        assert(b@.skip(i as int)[0] == b@[i as int]);
        if a[i] < b[i] {
            return true;
        }
        if a[i] > b[i] {
            return false;
        }
        proof {
            assert(a@.skip(i as int).skip(1) =~= a@.skip(i + 1));
            assert(b@.skip(i as int).skip(1) =~= b@.skip(i + 1));
        }
        i += 1;
    }
}

} // verus!
// Pre-release identifier order: dot-separated identifiers, numeric
// identifiers compared as numbers and sorting below alphanumeric ones.

verus! {

/// End of the identifier (first `.` or the end) starting at `i`.
pub open spec fn ident_end(s: Seq<u8>, i: int) -> int
    decreases s.len() - i,
{
    if i < s.len() && s[i] != 46 {
        ident_end(s, i + 1)
    } else {
        i
    }
}

proof fn lemma_ident_end(s: Seq<u8>, i: int)
    requires
        0 <= i <= s.len(),
    ensures
        i <= ident_end(s, i) <= s.len(),
        ident_end(s, i) < s.len() ==> s[ident_end(s, i)] == 46,
        forall|j: int| i <= j < ident_end(s, i) ==> s[j] != 46,
    decreases s.len() - i,
{
    if i < s.len() && s[i] != 46 {
        lemma_ident_end(s, i + 1);
    }
}

/// Every byte is an ASCII digit.
pub open spec fn all_digit_bytes(s: Seq<u8>) -> bool {
    forall|i: int| 0 <= i < s.len() ==> 48 <= #[trigger] s[i] <= 57
}

/// Strict order on single identifiers: numeric ones by length then bytes
/// (numeric order, absent leading zeros), and below every alphanumeric one;
/// alphanumeric ones bytewise.
pub open spec fn ident_lt(a: Seq<u8>, b: Seq<u8>) -> bool {
    if all_digit_bytes(a) && all_digit_bytes(b) {
        if a.len() != b.len() {
            a.len() < b.len()
        } else {
            lex_lt(a, b)
        }
    } else if all_digit_bytes(a) {
        true
    } else if all_digit_bytes(b) {
        false
    } else {
        lex_lt(a, b)
    }
}

proof fn lemma_ident_lt_connected(a: Seq<u8>, b: Seq<u8>)
    ensures
        ident_lt(a, b) || ident_lt(b, a) || a =~= b,
{
    if !ident_lt(a, b) && !ident_lt(b, a) {
        lemma_lex_lt_connected(a, b);
    }
}

proof fn lemma_ident_lt_trans(a: Seq<u8>, b: Seq<u8>, c: Seq<u8>)
    requires
        ident_lt(a, b),
        ident_lt(b, c),
    ensures
        ident_lt(a, c),
{
    if all_digit_bytes(a) && all_digit_bytes(b) && all_digit_bytes(c) {
        if a.len() == b.len() && b.len() == c.len() {
            lemma_lex_lt_trans(a, b, c);
        }
    } else if !all_digit_bytes(a) && !all_digit_bytes(b) && !all_digit_bytes(c) {
        lemma_lex_lt_trans(a, b, c);
    }
}

/// Strict order on dot-separated identifier sequences: identifier by
/// identifier, a strict prefix sorting first.
pub open spec fn ids_lt(a: Seq<u8>, b: Seq<u8>) -> bool
    decreases a.len() + b.len(),
    when 0 <= a.len() && 0 <= b.len()
    via ids_lt_dec
{
    let ea = ident_end(a, 0);
    let eb = ident_end(b, 0);
    let ia = a.subrange(0, ea);
    let ib = b.subrange(0, eb);
    if ident_lt(ia, ib) {
        true
    } else if ident_lt(ib, ia) {
        false
    } else if ea == a.len() && eb == b.len() {
        false
    } else if ea == a.len() {
        true
    } else if eb == b.len() {
        false
    } else {
        ids_lt(a.skip(ea + 1), b.skip(eb + 1))
    }
}

#[via_fn]
proof fn ids_lt_dec(a: Seq<u8>, b: Seq<u8>) {
    lemma_ident_end(a, 0);
    lemma_ident_end(b, 0);
}

proof fn lemma_ids_lt_connected(a: Seq<u8>, b: Seq<u8>)
    ensures
        ids_lt(a, b) || ids_lt(b, a) || a =~= b,
    decreases a.len() + b.len(),
{
    lemma_ident_end(a, 0);
    lemma_ident_end(b, 0);
    let ea = ident_end(a, 0);
    let eb = ident_end(b, 0);
    let ia = a.subrange(0, ea);
    let ib = b.subrange(0, eb);
    lemma_ident_lt_connected(ia, ib);
    if !ids_lt(a, b) && !ids_lt(b, a) {
        assert(ia =~= ib);
        if ea == a.len() && eb == b.len() {
            assert(a =~= b) by {
                assert(a =~= ia);
                assert(b =~= ib);
            }
        } else {
            let ta = a.skip(ea + 1);
            let tb = b.skip(eb + 1);
            lemma_ids_lt_connected(ta, tb);
            assert(ta =~= tb);
            assert(a =~= b) by {
                assert(ea == eb);
                assert(a.len() == b.len());
                assert forall|j: int| 0 <= j < a.len() implies a[j] == b[j] by {
                    if j < ea {
                        assert(ia[j] == ib[j]);
                    } else if j == ea {
                        assert(a[j] == 46 && b[j] == 46);
                    } else {
                        assert(ta[j - ea - 1] == tb[j - ea - 1]);
                    }
                }
            }
        }
    }
}

proof fn lemma_ids_lt_trans(a: Seq<u8>, b: Seq<u8>, c: Seq<u8>)
    requires
        ids_lt(a, b),
        ids_lt(b, c),
    ensures
        ids_lt(a, c),
    decreases a.len() + b.len() + c.len(),
{
    lemma_ident_end(a, 0);
    lemma_ident_end(b, 0);
    lemma_ident_end(c, 0);
    let ea = ident_end(a, 0);
    let eb = ident_end(b, 0);
    let ec = ident_end(c, 0);
    let ia = a.subrange(0, ea);
    let ib = b.subrange(0, eb);
    let ic = c.subrange(0, ec);
    lemma_ident_lt_connected(ia, ib);
    lemma_ident_lt_connected(ib, ic);
    lemma_ident_lt_connected(ia, ic);
    if ident_lt(ia, ib) {
        if ident_lt(ib, ic) {
            lemma_ident_lt_trans(ia, ib, ic);
        } else {
            assert(ib =~= ic);
        }
    } else {
        assert(ia =~= ib);
        if ident_lt(ib, ic) {
        } else {
            assert(ib =~= ic);
            if !(eb == b.len()) && !(ec == c.len()) && !(ea == a.len()) {
                lemma_ids_lt_trans(a.skip(ea + 1), b.skip(eb + 1), c.skip(ec + 1));
            }
        }
    }
}

} // verus!
// Executable identifier comparison.

verus! {

/// Copies `s[from..to]` into a fresh vector.
fn copy_range(s: &[u8], from: usize, to: usize) -> (r: Vec<u8>)
    requires
        from <= to <= s@.len(),
    ensures
        r@ =~= s@.subrange(from as int, to as int),
{
    let mut out: Vec<u8> = Vec::new();
    let mut i: usize = from;
    while i < to
        invariant
            from <= i <= to <= s@.len(),
            out@ =~= s@.subrange(from as int, i as int),
        decreases to - i,
    {
        out.push(s[i]);
        proof {
            assert(s@.subrange(from as int, i + 1)
                =~= s@.subrange(from as int, i as int).push(s@[i as int]));
        }
        i += 1;
    }
    out
}

/// Compares two pre-release tags per the identifier order.
#[verifier::loop_isolation(false)]
fn bytes_ids_lt(a: &[u8], b: &[u8]) -> (r: bool)
    ensures
        r == ids_lt(a@, b@),
    decreases a@.len() + b@.len(),
{
    proof {
        lemma_ident_end(a@, 0);
        lemma_ident_end(b@, 0);
    }
    let mut ea: usize = 0;
    while ea < a.len() && a[ea] != 46
        invariant
            ea <= a@.len(),
            ident_end(a@, ea as int) == ident_end(a@, 0),
        decreases a@.len() - ea,
    {
        ea += 1;
    }
    assert(ea as int == ident_end(a@, 0));
    let mut eb: usize = 0;
    while eb < b.len() && b[eb] != 46
        invariant
            eb <= b@.len(),
            ident_end(b@, eb as int) == ident_end(b@, 0),
        decreases b@.len() - eb,
    {
        eb += 1;
    }
    assert(eb as int == ident_end(b@, 0));
    let ia = copy_range(a, 0, ea);
    let ib = copy_range(b, 0, eb);
    let mut na = true;
    let mut k: usize = 0;
    while k < ia.len()
        invariant
            k <= ia@.len(),
            na == (forall|j: int| 0 <= j < k ==> 48 <= #[trigger] ia@[j] <= 57),
        decreases ia@.len() - k,
    {
        if !(48 <= ia[k] && ia[k] <= 57) {
            na = false;
        }
        k += 1;
    }
    assert(na == all_digit_bytes(ia@));
    let mut nb = true;
    let mut k2: usize = 0;
    while k2 < ib.len()
        invariant
            k2 <= ib@.len(),
            nb == (forall|j: int| 0 <= j < k2 ==> 48 <= #[trigger] ib@[j] <= 57),
        decreases ib@.len() - k2,
    {
        if !(48 <= ib[k2] && ib[k2] <= 57) {
            nb = false;
        }
        k2 += 1;
    }
    assert(nb == all_digit_bytes(ib@));
    let a_lt_b: bool = if na && nb {
        if ia.len() != ib.len() {
            ia.len() < ib.len()
        } else {
            bytes_lex_lt(&ia, &ib)
        }
    } else if na {
        true
    } else if nb {
        false
    } else {
        bytes_lex_lt(&ia, &ib)
    };
    assert(a_lt_b == ident_lt(ia@, ib@));
    if a_lt_b {
        return true;
    }
    let b_lt_a: bool = if na && nb {
        if ia.len() != ib.len() {
            ib.len() < ia.len()
        } else {
            bytes_lex_lt(&ib, &ia)
        }
    } else if nb {
        true
    } else if na {
        false
    } else {
        bytes_lex_lt(&ib, &ia)
    };
    assert(b_lt_a == ident_lt(ib@, ia@));
    if b_lt_a {
        return false;
    }
    if ea == a.len() && eb == b.len() {
        return false;
    }
    if ea == a.len() {
        return true;
    }
    if eb == b.len() {
        return false;
    }
    let ta = copy_range(a, ea + 1, a.len());
    let tb = copy_range(b, eb + 1, b.len());
    proof {
        assert(ta@ =~= a@.skip(ea + 1));
        assert(tb@ =~= b@.skip(eb + 1));
    }
    bytes_ids_lt(ta.as_slice(), tb.as_slice())
}

} // verus!
