//! Version ranges: the comparator model, the matching predicate, and the
//! parser for range expressions such as `>=1.0.0 <2.0.0 || ^3.1.0`.
//!
//! A range expression is a list of alternatives separated by `||`; each
//! alternative is a list of comparators separated by spaces; a comparator is
//! `*` or an operator (`=`, `>`, `>=`, `<`, `<=`, `^`, `~`, or none, meaning
//! an exact pin) followed by a full `major.minor.patch[-pre]` version.
//! Dependencies carry their range as the declared text; the text's meaning
//! is `range_sem`, and text that does not parse matches no version.

use vstd::prelude::*;
use crate::semver::{version_le, version_lt, Version, VersionV};
use crate::version_text::{parse_version, parse_version_spec};

verus! {

#[derive(Clone, Copy, Debug, PartialEq, Eq, Structural)]
pub enum RangeOp {
    /// Exactly the named version.
    Exact,
    Greater,
    GreaterEq,
    Less,
    LessEq,
    /// Same leading nonzero component, at least the named version.
    Caret,
    /// Same major and minor, at least the named version.
    Tilde,
    /// Any version.
    Wild,
}

#[derive(Debug)]
pub struct Comparator {
    pub op: RangeOp,
    pub version: Version,
}

/// Mathematical value of a comparator.
#[verifier::ext_equal]
pub ghost struct CompV {
    pub op: RangeOp,
    pub version: VersionV,
}

impl View for Comparator {
    type V = CompV;

    open spec fn view(&self) -> CompV {
        CompV { op: self.op, version: self.version@ }
    }
}

#[derive(Debug)]
pub struct ComparatorSet {
    pub comparators: Vec<Comparator>,
}

impl View for ComparatorSet {
    type V = Seq<CompV>;

    open spec fn view(&self) -> Seq<CompV> {
        Seq::new(self.comparators@.len(), |i: int| self.comparators@[i]@)
    }
}

/// A parsed range: a union of comparator sets.
#[derive(Debug)]
pub struct VersionRange {
    pub alternatives: Vec<ComparatorSet>,
}

impl View for VersionRange {
    type V = Seq<Seq<CompV>>;

    open spec fn view(&self) -> Seq<Seq<CompV>> {
        Seq::new(self.alternatives@.len(), |i: int| self.alternatives@[i]@)
    }
}

/// Whether one comparator admits a version.
pub open spec fn comp_matches(c: CompV, v: VersionV) -> bool {
    match c.op {
        RangeOp::Exact => v =~= c.version,
        RangeOp::Greater => version_lt(c.version, v),
        RangeOp::GreaterEq => version_le(c.version, v),
        RangeOp::Less => version_lt(v, c.version),
        RangeOp::LessEq => version_le(v, c.version),
        RangeOp::Caret => {
            if c.version.major > 0 {
                v.major == c.version.major && version_le(c.version, v)
            } else if c.version.minor > 0 {
                v.major == 0 && v.minor == c.version.minor && version_le(c.version, v)
            } else {
                v.major == 0 && v.minor == 0 && v.patch == c.version.patch
                    && version_le(c.version, v)
            }
        },
        RangeOp::Tilde => {
            v.major == c.version.major && v.minor == c.version.minor
                && version_le(c.version, v)
        },
        RangeOp::Wild => true,
    }
}

/// All comparators of one alternative admit the version.
pub open spec fn set_matches(cs: Seq<CompV>, v: VersionV) -> bool {
    forall|i: int| 0 <= i < cs.len() ==> comp_matches(#[trigger] cs[i], v)
}

/// Some alternative admits the version.
pub open spec fn range_matches(r: Seq<Seq<CompV>>, v: VersionV) -> bool {
    exists|i: int| 0 <= i < r.len() && set_matches(#[trigger] r[i], v)
}

impl Comparator {
    pub fn matches(&self, v: &Version) -> (r: bool)
        ensures
            r == comp_matches(self@, v@),
    {
        match self.op {
            RangeOp::Exact => self.version.ver_eq(v),
            RangeOp::Greater => self.version.ver_lt(v),
            RangeOp::GreaterEq => self.version.ver_lt(v) || self.version.ver_eq(v),
            RangeOp::Less => v.ver_lt(&self.version),
            RangeOp::LessEq => v.ver_lt(&self.version) || v.ver_eq(&self.version),
            RangeOp::Caret => {
                let low = self.version.ver_lt(v) || self.version.ver_eq(v);
                if self.version.major > 0 {
                    v.major == self.version.major && low
                } else if self.version.minor > 0 {
                    v.major == 0 && v.minor == self.version.minor && low
                } else {
                    v.major == 0 && v.minor == 0 && v.patch == self.version.patch && low
                }
            },
            RangeOp::Tilde => {
                v.major == self.version.major && v.minor == self.version.minor
                    && (self.version.ver_lt(v) || self.version.ver_eq(v))
            },
            RangeOp::Wild => true,
        }
    }
}

impl ComparatorSet {
    pub fn matches(&self, v: &Version) -> (r: bool)
        ensures
            r == set_matches(self@, v@),
    {
        let mut i: usize = 0;
        while i < self.comparators.len()
            invariant
                i <= self.comparators@.len(),
                forall|j: int| 0 <= j < i ==> comp_matches(#[trigger] self@[j], v@),
            decreases self.comparators@.len() - i,
        {
            if !self.comparators[i].matches(v) {
                assert(!comp_matches(self@[i as int], v@));
                return false;
            }
            i += 1;
        }
        true
    }
}

impl VersionRange {
    pub fn matches(&self, v: &Version) -> (r: bool)
        ensures
            r == range_matches(self@, v@),
    {
        let mut i: usize = 0;
        while i < self.alternatives.len()
            invariant
                i <= self.alternatives@.len(),
                forall|j: int| 0 <= j < i ==> !set_matches(#[trigger] self@[j], v@),
            decreases self.alternatives@.len() - i,
        {
            if self.alternatives[i].matches(v) {
                assert(set_matches(self@[i as int], v@));
                return true;
            }
            i += 1;
        }
        false
    }
}

} // verus!
// The range parser: a spec-level tokenizer and grammar, and executable
// functions proved to follow them.

verus! {

/// End of the token (first space or end of text) starting at `i`.
pub open spec fn token_end(s: Seq<u8>, i: int) -> int
    decreases s.len() - i,
{
    if i < s.len() && s[i] != 32 {
        token_end(s, i + 1)
    } else {
        i
    }
}

pub proof fn lemma_token_end(s: Seq<u8>, i: int)
    requires
        0 <= i <= s.len(),
    ensures
        i <= token_end(s, i) <= s.len(),
        i < s.len() && s[i] != 32 ==> token_end(s, i) >= i + 1,
    decreases s.len() - i,
{
    if i < s.len() && s[i] != 32 {
        lemma_token_end(s, i + 1);
    }
}

/// The space-separated tokens of `s`, from position `i` on.
pub open spec fn tokens_from(s: Seq<u8>, i: int) -> Seq<Seq<u8>>
    decreases s.len() - i,
    when 0 <= i <= s.len()
    via tokens_from_dec
{
    if i >= s.len() {
        Seq::empty()
    } else if s[i] == 32 {
        tokens_from(s, i + 1)
    } else {
        seq![s.subrange(i, token_end(s, i))] + tokens_from(s, token_end(s, i))
    }
}

#[via_fn]
proof fn tokens_from_dec(s: Seq<u8>, i: int) {
    if i < s.len() && s[i] != 32 {
        lemma_token_end(s, i);
    }
}

/// Maps a vector of byte vectors to the sequence of byte sequences it holds.
pub open spec fn tokens_view(v: Seq<Vec<u8>>) -> Seq<Seq<u8>> {
    Seq::new(v.len(), |i: int| v[i]@)
}

/// Copies `s[from..to]` into a fresh vector.
pub fn bytes_range(s: &[u8], from: usize, to: usize) -> (r: Vec<u8>)
    requires
        from <= to <= s@.len(),
    ensures
        r@ =~= s@.subrange(from as int, to as int),
{
    let mut out: Vec<u8> = Vec::new();
    let mut i: usize = from;
    while i < to
        invariant
            from <= i <= to <= s@.len(),
            out@ =~= s@.subrange(from as int, i as int),
        decreases to - i,
    {
        out.push(s[i]);
        proof {
            assert(s@.subrange(from as int, i + 1)
                =~= s@.subrange(from as int, i as int).push(s@[i as int]));
        }
        i += 1;
    }
    out
}

/// Splits `s[from..]` into its space-separated tokens.
pub fn tokenize(s: &[u8], from: usize) -> (r: Vec<Vec<u8>>)
    requires
        from <= s@.len(),
    ensures
        tokens_view(r@) =~= tokens_from(s@, from as int),
    decreases s@.len() - from,
{
    if from >= s.len() {
        return Vec::new();
    }
    if s[from] == 32 {
        return tokenize(s, from + 1);
    }
    proof {
        lemma_token_end(s@, from as int);
    }
    let mut e: usize = from;
    while e < s.len() && s[e] != 32
        invariant
            from <= e <= s@.len(),
            token_end(s@, e as int) == token_end(s@, from as int),
        decreases s@.len() - e,
    {
        e += 1;
    }
    assert(e == token_end(s@, from as int));
    let tok = bytes_range(s, from, e);
    let rest = tokenize(s, e);
    let mut out: Vec<Vec<u8>> = Vec::new();
    out.push(tok);
    let mut k: usize = 0;
    while k < rest.len()
        invariant
            k <= rest@.len(),
            out@.len() == k + 1,
            out@[0]@ =~= s@.subrange(from as int, token_end(s@, from as int)),
            forall|j: int| 0 <= j < k ==> out@[j + 1]@ =~= #[trigger] rest@[j]@,
        decreases rest@.len() - k,
    {
        let mut taken = Vec::new();
        crate::version_text::append_bytes(&mut taken, &rest[k]);
        out.push(taken);
        k += 1;
    }
    assert(tokens_view(out@) =~= tokens_from(s@, from as int)) by {
        assert(tokens_view(rest@) =~= tokens_from(s@, e as int));
        assert(forall|j: int| 0 <= j < rest@.len()
            ==> tokens_view(out@)[j + 1] =~= #[trigger] tokens_view(rest@)[j]);
    }
    out
}

/// Whether a token is the alternative separator `||`.
pub open spec fn is_sep(t: Seq<u8>) -> bool {
    t.len() == 2 && t[0] == 124 && t[1] == 124
}

/// Spec-level parse of one comparator token.
pub open spec fn parse_comp_spec(t: Seq<u8>) -> Option<CompV> {
    let zero = VersionV { major: 0, minor: 0, patch: 0, pre: Seq::empty() };
    if t.len() == 1 && t[0] == 42 {
        Some(CompV { op: RangeOp::Wild, version: zero })
    } else {
        let (op, k): (RangeOp, int) = if t.len() >= 2 && t[0] == 62 && t[1] == 61 {
            (RangeOp::GreaterEq, 2)
        } else if t.len() >= 2 && t[0] == 60 && t[1] == 61 {
            (RangeOp::LessEq, 2)
        } else if t.len() >= 1 && t[0] == 62 {
            (RangeOp::Greater, 1)
        } else if t.len() >= 1 && t[0] == 60 {
            (RangeOp::Less, 1)
        } else if t.len() >= 1 && t[0] == 61 {
            (RangeOp::Exact, 1)
        } else if t.len() >= 1 && t[0] == 94 {
            (RangeOp::Caret, 1)
        } else if t.len() >= 1 && t[0] == 126 {
            (RangeOp::Tilde, 1)
        } else {
            (RangeOp::Exact, 0)
        };
        match parse_version_spec(t.subrange(k, t.len() as int)) {
            Some(v) => Some(CompV { op, version: v }),
            None => None,
        }
    }
}

/// First separator token at or after `i`, or the end of the token list.
pub open spec fn first_sep(ts: Seq<Seq<u8>>, i: int) -> int
    decreases ts.len() - i,
{
    if i < ts.len() && !is_sep(ts[i]) {
        first_sep(ts, i + 1)
    } else {
        i
    }
}

pub proof fn lemma_first_sep(ts: Seq<Seq<u8>>, i: int)
    requires
        0 <= i <= ts.len(),
    ensures
        i <= first_sep(ts, i) <= ts.len(),
        forall|j: int| i <= j < first_sep(ts, i) ==> !is_sep(#[trigger] ts[j]),
        first_sep(ts, i) < ts.len() ==> is_sep(ts[first_sep(ts, i)]),
    decreases ts.len() - i,
{
    if i < ts.len() && !is_sep(ts[i]) {
        lemma_first_sep(ts, i + 1);
    }
}

/// Spec-level parse of the comparator tokens in `[i, k)`.
pub open spec fn parse_set_spec(ts: Seq<Seq<u8>>, i: int, k: int) -> Option<Seq<CompV>>
    decreases k - i,
{
    if i >= k {
        Some(Seq::empty())
    } else {
        match parse_comp_spec(ts[i]) {
            Some(c) => match parse_set_spec(ts, i + 1, k) {
                Some(rest) => Some(seq![c] + rest),
                None => None,
            },
            None => None,
        }
    }
}

/// Spec-level parse of the alternatives in the token list from `i` on.
pub open spec fn parse_alts_spec(ts: Seq<Seq<u8>>, i: int) -> Option<Seq<Seq<CompV>>>
    decreases ts.len() - i,
    when 0 <= i <= ts.len()
    via parse_alts_spec_dec
{
    let k = first_sep(ts, i);
    if k == i {
        None
    } else {
        match parse_set_spec(ts, i, k) {
            Some(cs) => {
                if k >= ts.len() {
                    Some(seq![cs])
                } else {
                    match parse_alts_spec(ts, k + 1) {
                        Some(rest) => Some(seq![cs] + rest),
                        None => None,
                    }
                }
            },
            None => None,
        }
    }
}

#[via_fn]
proof fn parse_alts_spec_dec(ts: Seq<Seq<u8>>, i: int) {
    lemma_first_sep(ts, i);
}

/// The meaning of a range expression: its parsed alternatives, or `None`
/// when the text is not a valid range.
pub open spec fn range_sem(text: Seq<u8>) -> Option<Seq<Seq<CompV>>> {
    parse_alts_spec(tokens_from(text, 0), 0)
}

/// Whether range text admits a version: invalid text admits none.
pub open spec fn range_text_matches(text: Seq<u8>, v: VersionV) -> bool {
    match range_sem(text) {
        Some(r) => range_matches(r, v),
        None => false,
    }
}

/// Parses one comparator token.
fn parse_comparator(t: &Vec<u8>) -> (r: Option<Comparator>)
    ensures
        match r {
            Some(c) => parse_comp_spec(t@) == Some(c@),
            None => parse_comp_spec(t@) is None,
        },
{
    if t.len() == 1 && t[0] == 42 {
        return Some(Comparator {
            op: RangeOp::Wild,
            version: Version { major: 0, minor: 0, patch: 0, pre: Vec::new() },
        });
    }
    let (op, k): (RangeOp, usize) = if t.len() >= 2 && t[0] == 62 && t[1] == 61 {
        (RangeOp::GreaterEq, 2)
    } else if t.len() >= 2 && t[0] == 60 && t[1] == 61 {
        (RangeOp::LessEq, 2)
    } else if t.len() >= 1 && t[0] == 62 {
        (RangeOp::Greater, 1)
    } else if t.len() >= 1 && t[0] == 60 {
        (RangeOp::Less, 1)
    } else if t.len() >= 1 && t[0] == 61 {
        (RangeOp::Exact, 1)
    } else if t.len() >= 1 && t[0] == 94 {
        (RangeOp::Caret, 1)
    } else if t.len() >= 1 && t[0] == 126 {
        (RangeOp::Tilde, 1)
    } else {
        (RangeOp::Exact, 0)
    };
    if k > t.len() {
        return None;
    }
    let tail = bytes_range(t.as_slice(), k, t.len());
    match parse_version(tail.as_slice()) {
        Some(v) => Some(Comparator { op, version: v }),
        None => None,
    }
}

/// Parses the alternatives of the token list from `from` on.
#[verifier::loop_isolation(false)]
fn parse_alternatives(ts: &Vec<Vec<u8>>, from: usize) -> (r: Option<Vec<ComparatorSet>>)
    requires
        from <= ts@.len(),
    ensures
        ({
            let tv = tokens_view(ts@);
            match r {
                Some(alts) => {
                    &&& parse_alts_spec(tv, from as int) is Some
                    &&& Seq::new(alts@.len(), |i: int| alts@[i]@)
                        =~= parse_alts_spec(tv, from as int).unwrap()
                },
                None => parse_alts_spec(tv, from as int) is None,
            }
        }),
    decreases ts@.len() - from,
{
    let ghost tv = tokens_view(ts@);
    proof {
        lemma_first_sep(tv, from as int);
    }
    let mut k: usize = from;
    while k < ts.len() && !(ts[k].len() == 2 && ts[k][0] == 124 && ts[k][1] == 124)
        invariant
            from <= k <= ts@.len(),
            tv =~= tokens_view(ts@),
            first_sep(tv, k as int) == first_sep(tv, from as int),
        decreases ts@.len() - k,
    {
        proof {
            assert(!is_sep(tv[k as int]));
        }
        k += 1;
    }
    proof {
        if k < ts@.len() {
            assert(is_sep(tv[k as int]));
        }
        assert(k as int == first_sep(tv, from as int));
    }
    if k == from {
        return None;
    }
    let mut comps: Vec<Comparator> = Vec::new();
    let mut i: usize = from;
    while i < k
        invariant
            from <= i <= k <= ts@.len(),
            tv =~= tokens_view(ts@),
            parse_set_spec(tv, from as int, k as int) is Some
                <==> parse_set_spec(tv, i as int, k as int) is Some,
            parse_set_spec(tv, from as int, k as int) matches Some(whole)
                ==> parse_set_spec(tv, i as int, k as int) matches Some(rest)
                    && whole =~= Seq::new(comps@.len(), |j: int| comps@[j]@) + rest,
        decreases k - i,
    {
        match parse_comparator(&ts[i]) {
            Some(c) => {
                comps.push(c);
            },
            None => {
                return None;
            },
        }
        i += 1;
    }
    let set = ComparatorSet { comparators: comps };
    let ghost cs = parse_set_spec(tv, from as int, k as int);
    proof {
        assert(parse_set_spec(tv, k as int, k as int) == Some(Seq::<CompV>::empty()));
        assert(cs is Some);
        assert(cs.unwrap() =~= set@);
    }
    if k >= ts.len() {
        let mut alts: Vec<ComparatorSet> = Vec::new();
        alts.push(set);
        return Some(alts);
    }
    match parse_alternatives(ts, k + 1) {
        Some(mut rest) => {
            rest.insert(0, set);
            Some(rest)
        },
        None => None,
    }
}

impl VersionRange {
    /// Parses a range expression; the result is exactly what the grammar
    /// (`range_sem`) says.
    pub fn parse(text: &[u8]) -> (r: Option<VersionRange>)
        ensures
            match r {
                Some(rng) => range_sem(text@) == Some(rng@),
                None => range_sem(text@) is None,
            },
    {
        let tokens = tokenize(text, 0);
        match parse_alternatives(&tokens, 0) {
            Some(alts) => Some(VersionRange { alternatives: alts }),
            None => None,
        }
    }

    /// Whether this range text admits the version; text that does not parse
    /// admits none.
    pub fn text_matches(text: &[u8], v: &Version) -> (r: bool)
        ensures
            r == range_text_matches(text@, v@),
    {
        match Self::parse(text) {
            Some(rng) => rng.matches(v),
            None => false,
        }
    }
}

} // verus!
// Pre-release detection: whether a range expression names a pre-release
// version in any of its comparators.

verus! {

/// Some comparator of the range carries a pre-release tag.
pub open spec fn range_has_pre(r: Seq<Seq<CompV>>) -> bool {
    exists|i: int, j: int|
        0 <= i < r.len() && 0 <= j < r[i].len() && (#[trigger] r[i][j]).version.pre.len() > 0
}

/// Whether the range text names a pre-release version; text that does not
/// parse names none.
pub open spec fn range_text_has_pre(text: Seq<u8>) -> bool {
    match range_sem(text) {
        Some(r) => range_has_pre(r),
        None => false,
    }
}

impl VersionRange {
    /// Whether some comparator of this range carries a pre-release tag.
    pub fn has_pre(&self) -> (r: bool)
        ensures
            r == range_has_pre(self@),
    {
        let mut i: usize = 0;
        while i < self.alternatives.len()
            invariant
                i <= self.alternatives@.len(),
                forall|a: int, b: int| 0 <= a < i && 0 <= b < self@[a].len()
                    ==> (#[trigger] self@[a][b]).version.pre.len() == 0,
            decreases self.alternatives@.len() - i,
        {
            let set_ref = &self.alternatives[i];
            let mut j: usize = 0;
            while j < set_ref.comparators.len()
                invariant
                    i < self.alternatives@.len(),
                    j <= set_ref.comparators@.len(),
                    set_ref@ == self@[i as int],
                    forall|b: int| 0 <= b < j
                        ==> (#[trigger] self@[i as int][b]).version.pre.len() == 0,
                decreases set_ref.comparators@.len() - j,
            {
                if set_ref.comparators[j].version.pre.len() > 0 {
                    proof {
                        assert(self@[i as int][j as int].version.pre.len() > 0);
                    }
                    return true;
                }
                j += 1;
            }
            i += 1;
        }
        false
    }

    /// Whether the range text names a pre-release version.
    pub fn text_has_pre(text: &[u8]) -> (r: bool)
        ensures
            r == range_text_has_pre(text@),
    {
        match Self::parse(text) {
            Some(rng) => rng.has_pre(),
            None => false,
        }
    }
}

} // verus!
