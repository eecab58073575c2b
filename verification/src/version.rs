//! Semantic versions and version increments: parsing, ordering, and the
//! bump rules that compute a next version from an increment.

use vstd::prelude::*;

use crate::text::{
    all_digits, copy_range, dec_digits, dec_val, digit_char, digit_run, is_digit_char,
    lemma_digit_run, parse_dec_u64, push_dec_u64, str_chars,
};

verus! {

// ------------------------------------------------------------------------
// Increments
// ------------------------------------------------------------------------

/// A version increment, from least to most severe.
#[derive(Clone, Copy, Debug, PartialEq, Eq, Structural)]
pub enum Increment {
    /// Patch-level increment.
    Patch,
    /// Minor increment.
    Minor,
    /// Major increment.
    Major,
}

/// The rank of an increment under the order Patch < Minor < Major.
pub open spec fn inc_rank(i: Increment) -> int {
    match i {
        Increment::Patch => 1,
        Increment::Minor => 2,
        Increment::Major => 3,
    }
}

/// The rank of an optional increment, treating an unset slot as lowest.
pub open spec fn opt_rank(o: Option<Increment>) -> int {
    match o {
        None => 0,
        Some(i) => inc_rank(i),
    }
}

impl Increment {
    /// The rank of this increment under the order Patch < Minor < Major.
    pub fn rank(&self) -> (r: u8)
        ensures
            r as int == inc_rank(*self),
    {
        match self {
            Increment::Patch => 1,
            Increment::Minor => 2,
            Increment::Major => 3,
        }
    }
}

/// The greater of two optional increments, with an unset slot as lowest.
pub fn opt_max(a: Option<Increment>, b: Option<Increment>) -> (r: Option<Increment>)
    ensures
        opt_rank(r) == if opt_rank(a) >= opt_rank(b) {
            opt_rank(a)
        } else {
            opt_rank(b)
        },
        r == a || r == b,
{
    let ra: u8 = match a {
        None => 0,
        Some(i) => i.rank(),
    };
    let rb: u8 = match b {
        None => 0,
        Some(i) => i.rank(),
    };
    if ra >= rb {
        a
    } else {
        b
    }
}

/// Equal optional increments have equal ranks, and conversely.
pub proof fn lemma_opt_rank_injective(a: Option<Increment>, b: Option<Increment>)
    ensures
        (opt_rank(a) == opt_rank(b)) <==> (a == b),
{
}

// ------------------------------------------------------------------------
// Versions
// ------------------------------------------------------------------------

/// A semantic version: a major/minor/patch triple with optional pre-release
/// and build metadata, stored without a leading `v`.
#[derive(Debug, Clone, PartialEq, Eq)]
pub struct Version {
    /// Major component.
    pub major: u64,
    /// Minor component.
    pub minor: u64,
    /// Patch component.
    pub patch: u64,
    /// Pre-release text after the `-`, empty when absent.
    pub pre: String,
    /// Build metadata after the `+`, empty when absent.
    pub build: String,
}

/// Whether a character may stand in a pre-release or build identifier.
pub open spec fn is_ident_char(c: char) -> bool {
    is_digit_char(c) || (0x41 <= c as u32 && c as u32 <= 0x5a) || (0x61 <= c as u32 && c as u32
        <= 0x7a) || c == '-'
}

/// Whether a sequence is a nonempty dot-separated list of nonempty
/// identifiers made of identifier characters.
pub open spec fn dotted_idents(s: Seq<char>) -> bool {
    &&& s.len() > 0
    &&& s[0] != '.'
    &&& s.last() != '.'
    &&& forall|i: int| 0 <= i < s.len() ==> is_ident_char(#[trigger] s[i]) || s[i] == '.'
    &&& forall|i: int| 0 <= i < s.len() - 1 ==> (#[trigger] s[i] == '.' ==> s[i + 1] != '.')
}

/// The position of the first `.` at or after `i`, bounded by the length.
pub open spec fn first_dot(s: Seq<char>, i: int) -> int
    decreases s.len() - i when 0 <= i <= s.len()
{
    if i >= s.len() {
        s.len() as int
    } else if s[i] == '.' {
        i
    } else {
        first_dot(s, i + 1)
    }
}

/// Whether the pre-release identifiers are well formed: dot-separated
/// identifiers where a numeric identifier never starts with a surplus
/// zero.
pub open spec fn no_zero_num_idents(s: Seq<char>) -> bool {
    forall|i: int|
        #![trigger s[i]]
        0 <= i < s.len() && (i == 0 || s[i - 1] == '.') && s[i] == '0' && first_dot(s, i) > i + 1
            ==> !all_digits(s.subrange(i, first_dot(s, i)))
}

pub open spec fn pre_idents_ok(s: Seq<char>) -> bool {
    &&& dotted_idents(s)
    &&& no_zero_num_idents(s)
}

/// Whether a version's stored fields are well formed.
pub open spec fn valid_version(v: Version) -> bool {
    &&& v.pre@.len() > 0 ==> pre_idents_ok(v.pre@)
    &&& v.build@.len() > 0 ==> dotted_idents(v.build@)
}

/// The canonical text of a version, without a leading `v`.
pub open spec fn version_text(v: Version) -> Seq<char> {
    dec_digits(v.major as int) + seq!['.'] + dec_digits(v.minor as int) + seq!['.'] + dec_digits(
        v.patch as int,
    ) + (if v.pre@.len() > 0 {
        seq!['-'] + v.pre@
    } else {
        Seq::empty()
    }) + (if v.build@.len() > 0 {
        seq!['+'] + v.build@
    } else {
        Seq::empty()
    })
}

impl Version {
    /// Builds a release version from its triple, with no pre-release or
    /// build metadata.
    pub fn release(major: u64, minor: u64, patch: u64) -> (v: Version)
        ensures
            v.major == major,
            v.minor == minor,
            v.patch == patch,
            v.pre@.len() == 0,
            v.build@.len() == 0,
            valid_version(v),
    {
        Version { major, minor, patch, pre: String::new(), build: String::new() }
    }

    /// The canonical text of the version as characters.
    pub fn to_chars(&self) -> (r: Vec<char>)
        ensures
            r@ == version_text(*self),
    {
        let mut out: Vec<char> = Vec::new();
        push_dec_u64(self.major, &mut out);
        out.push('.');
        push_dec_u64(self.minor, &mut out);
        out.push('.');
        push_dec_u64(self.patch, &mut out);
        let pre = str_chars(self.pre.as_str());
        if pre.len() > 0 {
            out.push('-');
            let mut i: usize = 0;
            while i < pre.len()
                invariant
                    i <= pre@.len(),
                    out@ == dec_digits(self.major as int) + seq!['.'] + dec_digits(
                        self.minor as int,
                    ) + seq!['.'] + dec_digits(self.patch as int) + seq!['-'] + pre@.subrange(
                        0,
                        i as int,
                    ),
                decreases pre@.len() - i,
            {
                out.push(pre[i]);
                proof {
                    assert(pre@.subrange(0, i + 1) =~= pre@.subrange(0, i as int) + seq![pre@[i as int]]);
                }
                i = i + 1;
            }
            proof {
                assert(pre@.subrange(0, pre@.len() as int) =~= pre@);
            }
        }
        let build = str_chars(self.build.as_str());
        let ghost head = out@;
        if build.len() > 0 {
            out.push('+');
            let mut i: usize = 0;
            while i < build.len()
                invariant
                    i <= build@.len(),
                    out@ == head + seq!['+'] + build@.subrange(0, i as int),
                decreases build@.len() - i,
            {
                out.push(build[i]);
                proof {
                    assert(build@.subrange(0, i + 1) =~= build@.subrange(0, i as int)
                        + seq![build@[i as int]]);
                }
                i = i + 1;
            }
            proof {
                assert(build@.subrange(0, build@.len() as int) =~= build@);
            }
        }
        proof {
            assert(out@ =~= version_text(*self));
        }
        out
    }

    /// An equal copy of the version.
    pub fn duplicate(&self) -> (r: Version)
        ensures
            version_eq(*self, r),
            r.major == self.major,
            r.minor == self.minor,
            r.patch == self.patch,
            r.pre@ == self.pre@,
            r.build@ == self.build@,
    {
        Version {
            major: self.major,
            minor: self.minor,
            patch: self.patch,
            pre: crate::text::clone_string(&self.pre),
            build: crate::text::clone_string(&self.build),
        }
    }

    /// The canonical text of the version.
    pub fn to_text(&self) -> (r: String)
        ensures
            r@ == version_text(*self),
    {
        let chars = self.to_chars();
        crate::text::chars_to_string(&chars)
    }
}

// ------------------------------------------------------------------------
// Bump rules
// ------------------------------------------------------------------------

/// A saturating increment on a 64-bit number.
pub open spec fn sat_inc(n: u64) -> u64 {
    if n == u64::MAX {
        n
    } else {
        (n + 1) as u64
    }
}

/// The version after applying an increment, following the semantic
/// versioning bump table: `0.0.z` always bumps the patch; `0.y.z` bumps the
/// minor for major or minor increments and the patch otherwise; `x.y.z`
/// with `x >= 1` bumps the named component and zeroes those after it.
/// Pre-release and build metadata are always cleared.
pub open spec fn bump_spec(v: Version, i: Increment) -> Version {
    let (major, minor, patch) = if v.major == 0 && v.minor == 0 {
        (0u64, 0u64, sat_inc(v.patch))
    } else if v.major == 0 {
        match i {
            Increment::Patch => (0u64, v.minor, sat_inc(v.patch)),
            _ => (0u64, sat_inc(v.minor), 0u64),
        }
    } else {
        match i {
            Increment::Major => (sat_inc(v.major), 0u64, 0u64),
            Increment::Minor => (v.major, sat_inc(v.minor), 0u64),
            Increment::Patch => (v.major, v.minor, sat_inc(v.patch)),
        }
    };
    Version { major, minor, patch, pre: v.pre, build: v.build }
}

impl Version {
    /// Returns the next version after applying the given increment,
    /// clearing pre-release and build metadata.
    pub fn bump(&self, increment: Increment) -> (r: Version)
        ensures
            r.major == bump_spec(*self, increment).major,
            r.minor == bump_spec(*self, increment).minor,
            r.patch == bump_spec(*self, increment).patch,
            r.pre@.len() == 0,
            r.build@.len() == 0,
            valid_version(r),
    {
        let (major, minor, patch): (u64, u64, u64) = if self.major == 0 && self.minor == 0 {
            (0, 0, sat_add_one(self.patch))
        } else if self.major == 0 {
            match increment {
                Increment::Patch => (0, self.minor, sat_add_one(self.patch)),
                _ => (0, sat_add_one(self.minor), 0),
            }
        } else {
            match increment {
                Increment::Major => (sat_add_one(self.major), 0, 0),
                Increment::Minor => (self.major, sat_add_one(self.minor), 0),
                Increment::Patch => (self.major, self.minor, sat_add_one(self.patch)),
            }
        };
        Version { major, minor, patch, pre: String::new(), build: String::new() }
    }

    /// Returns the minimum increment for the version: Patch for `0.0.z`,
    /// none otherwise.
    pub fn min_bump(&self) -> (r: Option<Increment>)
        ensures
            r == if self.major == 0 && self.minor == 0 {
                Some(Increment::Patch)
            } else {
                None::<Increment>
            },
    {
        if self.major == 0 && self.minor == 0 {
            Some(Increment::Patch)
        } else {
            None
        }
    }

    /// Returns the maximum increment for the version: Patch for `0.0.z`,
    /// Minor for `0.y.z` with `y >= 1`, Major otherwise.
    pub fn max_bump(&self) -> (r: Increment)
        ensures
            r == if self.major == 0 && self.minor == 0 {
                Increment::Patch
            } else if self.major == 0 {
                Increment::Minor
            } else {
                Increment::Major
            },
    {
        if self.major == 0 && self.minor == 0 {
            Increment::Patch
        } else if self.major == 0 {
            Increment::Minor
        } else {
            Increment::Major
        }
    }
}

fn sat_add_one(n: u64) -> (r: u64)
    ensures
        r == sat_inc(n),
{
    if n == u64::MAX {
        n
    } else {
        n + 1
    }
}

/// Applying any increment clears pre-release and build metadata, and the
/// resulting triple follows the bump table.
pub proof fn lemma_bump_table(v: Version, i: Increment)
    ensures
        bump_spec(v, i).major == 0 && bump_spec(v, i).minor == 0 ==> v.major == 0 && (v.minor == 0
            || i != Increment::Patch),
        v.major == 0 && v.minor == 0 ==> bump_spec(v, i).patch == sat_inc(v.patch)
            && bump_spec(v, i).minor == 0 && bump_spec(v, i).major == 0,
        v.major == 0 && v.minor >= 1 && i != Increment::Patch ==> bump_spec(v, i) == (Version {
            minor: sat_inc(v.minor),
            patch: 0u64,
            ..v
        }),
        v.major == 0 && v.minor >= 1 && i == Increment::Patch ==> bump_spec(v, i) == (Version {
            patch: sat_inc(v.patch),
            ..v
        }),
        v.major >= 1 && i == Increment::Major ==> bump_spec(v, i) == (Version {
            major: sat_inc(v.major),
            minor: 0u64,
            patch: 0u64,
            ..v
        }),
        v.major >= 1 && i == Increment::Minor ==> bump_spec(v, i) == (Version {
            minor: sat_inc(v.minor),
            patch: 0u64,
            ..v
        }),
        v.major >= 1 && i == Increment::Patch ==> bump_spec(v, i) == (Version {
            patch: sat_inc(v.patch),
            ..v
        }),
{
}

// ------------------------------------------------------------------------
// Parsing
// ------------------------------------------------------------------------

/// Reads a number component at position `i`: the digit run, rejecting
/// leading zeros and values beyond 64 bits. Yields the value and the
/// position after the run.
pub open spec fn scan_num(s: Seq<char>, i: int) -> Option<(u64, int)> {
    let n = digit_run(s, i);
    if n == 0 {
        None
    } else if s[i] == '0' && n > 1 {
        None
    } else if dec_val(s.subrange(i, i + n)) > u64::MAX {
        None
    } else {
        Some((dec_val(s.subrange(i, i + n)) as u64, i + n))
    }
}

/// The parse of a version text: the triple, pre-release text and build
/// text, or nothing when the text is not a version.
pub open spec fn parse_version_spec(s: Seq<char>) -> Option<(u64, u64, u64, Seq<char>, Seq<char>)> {
    match scan_num(s, 0) {
        None => None,
        Some((major, i)) => if i < s.len() && s[i] == '.' {
            match scan_num(s, i + 1) {
                None => None,
                Some((minor, j)) => if j < s.len() && s[j] == '.' {
                    match scan_num(s, j + 1) {
                        None => None,
                        Some((patch, k)) => if k == s.len() {
                            Some((major, minor, patch, Seq::empty(), Seq::empty()))
                        } else if s[k] == '-' {
                            let rest = s.subrange(k + 1, s.len() as int);
                            let plus = first_plus(rest, 0);
                            let pre = rest.subrange(0, plus);
                            if plus == rest.len() {
                                if pre_idents_ok(pre) {
                                    Some((major, minor, patch, pre, Seq::empty()))
                                } else {
                                    None
                                }
                            } else {
                                let build = rest.subrange(plus + 1, rest.len() as int);
                                if pre_idents_ok(pre) && dotted_idents(build) {
                                    Some((major, minor, patch, pre, build))
                                } else {
                                    None
                                }
                            }
                        } else if s[k] == '+' {
                            let build = s.subrange(k + 1, s.len() as int);
                            if dotted_idents(build) {
                                Some((major, minor, patch, Seq::empty(), build))
                            } else {
                                None
                            }
                        } else {
                            None
                        },
                    }
                } else {
                    None
                },
            }
        } else {
            None
        },
    }
}

/// The position of the first `+` at or after `i`, or the length when none.
pub open spec fn first_plus(s: Seq<char>, i: int) -> int
    decreases s.len() - i when 0 <= i <= s.len()
{
    if i >= s.len() {
        s.len() as int
    } else if s[i] == '+' {
        i
    } else {
        first_plus(s, i + 1)
    }
}

pub proof fn lemma_first_plus(s: Seq<char>, i: int)
    requires
        0 <= i <= s.len(),
    ensures
        i <= first_plus(s, i) <= s.len(),
        forall|j: int| i <= j < first_plus(s, i) ==> s[j] != '+',
        first_plus(s, i) < s.len() ==> s[first_plus(s, i)] == '+',
    decreases s.len() - i,
{
    if i < s.len() && s[i] != '+' {
        lemma_first_plus(s, i + 1);
    }
}

/// Reads the digit run at `i` and its value, as `scan_num` does.
fn scan_num_exec(v: &Vec<char>, i: usize) -> (r: Option<(u64, usize)>)
    requires
        i <= v@.len(),
    ensures
        match r {
            Some((value, j)) => scan_num(v@, i as int) == Some((value, j as int)) && i < j
                && j <= v@.len(),
            None => scan_num(v@, i as int) is None,
        },
{
    proof {
        lemma_digit_run(v@, i as int);
    }
    let mut j = i;
    while j < v.len() && digit_char(v[j])
        invariant
            i <= j <= v@.len(),
            forall|k: int| i <= k < j ==> is_digit_char(#[trigger] v@[k]),
            j - i <= digit_run(v@, i as int),
        decreases v@.len() - j,
    {
        proof {
            lemma_digit_run(v@, i as int);
        }
        j = j + 1;
    }
    proof {
        lemma_digit_run(v@, i as int);
    }
    assert(j - i == digit_run(v@, i as int));
    if j == i {
        return None;
    }
    if v[i] == '0' && j - i > 1 {
        return None;
    }
    proof {
        assert(all_digits(v@.subrange(i as int, j as int)));
    }
    match parse_dec_u64(v, i, j) {
        None => {
            proof {
                crate::text::lemma_dec_val_nonneg(v@.subrange(i as int, j as int));
            }
            None
        },
        Some(value) => Some((value, j)),
    }
}

/// Whether `v[lo..hi]` is a nonempty dot-separated identifier list.
fn check_dotted(v: &Vec<char>, lo: usize, hi: usize) -> (r: bool)
    requires
        lo <= hi <= v@.len(),
    ensures
        r == dotted_idents(v@.subrange(lo as int, hi as int)),
{
    let ghost s = v@.subrange(lo as int, hi as int);
    if lo == hi {
        return false;
    }
    if v[lo] == '.' {
        assert(s[0] == '.');
        return false;
    }
    if v[hi - 1] == '.' {
        assert(s.last() == '.');
        return false;
    }
    let mut i = lo;
    while i < hi
        invariant
            lo <= i <= hi <= v@.len(),
            s == v@.subrange(lo as int, hi as int),
            forall|k: int| 0 <= k < i - lo ==> is_ident_char(#[trigger] s[k]) || s[k] == '.',
            forall|k: int| 1 <= k < i - lo ==> !(s[k - 1] == '.' && #[trigger] s[k] == '.'),
        decreases hi - i,
    {
        let c = v[i];
        assert(s[i - lo] == v@[i as int]);
        let u = c as u32;
        let ok = (0x30 <= u && u <= 0x39) || (0x41 <= u && u <= 0x5a) || (0x61 <= u && u <= 0x7a)
            || c == '-' || c == '.';
        if !ok {
            assert(!(is_ident_char(s[i - lo]) || s[i - lo] == '.'));
            return false;
        }
        if i > lo && c == '.' && v[i - 1] == '.' {
            assert(s[i - lo] == '.' && s[i - lo - 1] == '.');
            return false;
        }
        proof {
            if i > lo {
                assert(s[i - lo - 1] == v@[i - 1]);
            }
        }
        i = i + 1;
    }
    proof {
        assert(s[0] == v@[lo as int]);
        assert(s.last() == v@[hi - 1]);
        assert forall|k: int| 0 <= k < s.len() - 1 implies (#[trigger] s[k] == '.' ==> s[k + 1]
            != '.') by {
            assert(1 <= k + 1 < s.len() ==> !(s[k] == '.' && s[k + 1] == '.'));
        }
    }
    true
}

/// Whether `v[lo..hi]` holds no all-digit identifier with a surplus
/// leading zero.
#[verifier::loop_isolation(false)]
#[verifier::rlimit(100)]
fn check_no_zero_idents(v: &Vec<char>, lo: usize, hi: usize) -> (r: bool)
    requires
        lo <= hi <= v@.len(),
    ensures
        r == no_zero_num_idents(v@.subrange(lo as int, hi as int)),
{
    let ghost s = v@.subrange(lo as int, hi as int);
    let mut i = lo;
    while i < hi
        invariant
            lo <= i <= hi,
            forall|q: int|
                #![trigger s[q]]
                0 <= q < i - lo && (q == 0 || s[q - 1] == '.') && s[q] == '0' && first_dot(s, q) > q
                    + 1 ==> !all_digits(s.subrange(q, first_dot(s, q))),
        decreases hi - i,
    {
        proof {
            assert(s[i - lo] == v@[i as int]);
            if i > lo {
                assert(s[i - lo - 1] == v@[i - 1]);
            }
        }
        let at_start = i == lo || v[i - 1] == '.';
        if at_start && v[i] == '0' {
            // scan the identifier for its end
            let mut e = i;
            while e < hi && v[e] != '.'
                invariant
                    i <= e <= hi,
                    first_dot(s, i - lo) == first_dot(s, e - lo),
                decreases hi - e,
            {
                proof {
                    assert(s[e - lo] == v@[e as int]);
                    assert(first_dot(s, e - lo) == first_dot(s, e - lo + 1));
                }
                e = e + 1;
            }
            proof {
                if e < hi {
                    assert(s[e - lo] == v@[e as int]);
                    assert(first_dot(s, e - lo) == e - lo);
                } else {
                    assert(first_dot(s, e - lo) == s.len());
                }
            }
            if e > i + 1 {
                // reject an all-digit identifier
                let run = crate::change::digit_run_at(v, i);
                proof {
                    crate::text::lemma_digit_run(v@, i as int);
                }
                if run >= e - i {
                    proof {
                        assert(all_digits(s.subrange(i - lo, e - lo))) by {
                            assert forall|q: int|
                                0 <= q < s.subrange(i - lo, e - lo).len() implies is_digit_char(
                                #[trigger] s.subrange(i - lo, e - lo)[q],
                            ) by {
                                assert(s.subrange(i - lo, e - lo)[q] == v@[i + q]);
                            }
                        }
                        assert(s.subrange(i - lo, e - lo) == s.subrange(
                            i - lo,
                            first_dot(s, i - lo),
                        ));
                        assert(!no_zero_num_idents(s)) by {
                            assert(0 <= i - lo < s.len() && (i - lo == 0 || s[i - lo - 1] == '.')
                                && s[i - lo] == '0' && first_dot(s, i - lo) > i - lo + 1);
                        }
                    }
                    return false;
                } else {
                    proof {
                        assert(!is_digit_char(v@[i + run])) by {
                            assert(i + run < e <= hi <= v@.len());
                        }
                        assert(!all_digits(s.subrange(i - lo, first_dot(s, i - lo)))) by {
                            assert(s.subrange(i - lo, e - lo)[run as int] == v@[i + run]);
                            assert(s.subrange(i - lo, e - lo) == s.subrange(
                                i - lo,
                                first_dot(s, i - lo),
                            ));
                        }
                    }
                }
            }
        }
        i = i + 1;
    }
    true
}

/// Parses a version text in strict `MAJOR.MINOR.PATCH[-pre][+build]` form.
#[verifier::rlimit(60)]
pub fn parse_version(v: &Vec<char>) -> (r: Option<Version>)
    ensures
        match r {
            Some(ver) => parse_version_spec(v@) == Some(
                (ver.major, ver.minor, ver.patch, ver.pre@, ver.build@),
            ) && valid_version(ver),
            None => parse_version_spec(v@) is None,
        },
{
    let n = v.len();
    let Some((major, i)) = scan_num_exec(v, 0) else {
        return None;
    };
    if i >= n || v[i] != '.' {
        return None;
    }
    let Some((minor, j)) = scan_num_exec(v, i + 1) else {
        return None;
    };
    if j >= n || v[j] != '.' {
        return None;
    }
    let Some((patch, k)) = scan_num_exec(v, j + 1) else {
        return None;
    };
    if k == n {
        return Some(Version::release(major, minor, patch));
    }
    if v[k] == '-' {
        let ghost rest = v@.subrange(k + 1, n as int);
        proof {
            lemma_first_plus(rest, 0);
        }
        // locate the first '+' after the '-'
        let mut p = k + 1;
        while p < n && v[p] != '+'
            invariant
                k + 1 <= p <= n,
                n == v@.len(),
                rest == v@.subrange(k + 1, n as int),
                forall|q: int| k + 1 <= q < p ==> v@[q] != '+',
            decreases n - p,
        {
            p = p + 1;
        }
        proof {
            assert(forall|q: int| 0 <= q < p - (k + 1) ==> rest[q] == v@[q + k + 1]);
            if p < n {
                assert(rest[p - (k + 1)] == v@[p as int]);
            }
            assert(first_plus(rest, 0) == p - (k + 1)) by {
                lemma_first_plus_is(rest, p - (k + 1));
            }
        }
        if !check_dotted(v, k + 1, p) {
            proof {
                assert(v@.subrange(k + 1, p as int) =~= rest.subrange(0, p - (k + 1)));
            }
            return None;
        }
        if !check_no_zero_idents(v, k + 1, p) {
            proof {
                assert(v@.subrange(k + 1, p as int) =~= rest.subrange(0, p - (k + 1)));
            }
            return None;
        }
        proof {
            assert(v@.subrange(k + 1, p as int) =~= rest.subrange(0, p - (k + 1)));
        }
        if p == n {
            let pre_chars = copy_range(v, k + 1, p);
            let pre = crate::text::chars_to_string(&pre_chars);
            let r = Version {
                major,
                minor,
                patch,
                pre,
                build: String::new(),
            };
            return Some(r);
        }
        if !check_dotted(v, p + 1, n) {
            proof {
                assert(v@.subrange(p + 1, n as int) =~= rest.subrange(
                    p - (k + 1) + 1,
                    rest.len() as int,
                ));
            }
            return None;
        }
        proof {
            assert(v@.subrange(p + 1, n as int) =~= rest.subrange(
                p - (k + 1) + 1,
                rest.len() as int,
            ));
        }
        let pre_chars = copy_range(v, k + 1, p);
        let build_chars = copy_range(v, p + 1, n);
        let r = Version {
            major,
            minor,
            patch,
            pre: crate::text::chars_to_string(&pre_chars),
            build: crate::text::chars_to_string(&build_chars),
        };
        return Some(r);
    }
    if v[k] == '+' {
        if !check_dotted(v, k + 1, n) {
            return None;
        }
        let build_chars = copy_range(v, k + 1, n);
        let r = Version {
            major,
            minor,
            patch,
            pre: String::new(),
            build: crate::text::chars_to_string(&build_chars),
        };
        return Some(r);
    }
    None
}

/// If no `+` stands before `k` and either `k` is the end or a `+` stands at
/// `k`, the first `+` is at `k`.
proof fn lemma_first_plus_is(s: Seq<char>, k: int)
    requires
        0 <= k <= s.len(),
        forall|q: int| 0 <= q < k ==> s[q] != '+',
        k < s.len() ==> s[k] == '+',
    ensures
        first_plus(s, 0) == k,
{
    lemma_first_plus_from(s, 0, k);
}

proof fn lemma_first_plus_from(s: Seq<char>, i: int, k: int)
    requires
        0 <= i <= k <= s.len(),
        forall|q: int| i <= q < k ==> s[q] != '+',
        k < s.len() ==> s[k] == '+',
    ensures
        first_plus(s, i) == k,
    decreases k - i,
{
    if i < k {
        lemma_first_plus_from(s, i + 1, k);
    }
}

/// Parses a version from a string, allowing any number of leading `v`
/// characters, as tag names and user input conventionally carry one.
pub fn parse_version_str(s: &str) -> (r: Option<Version>)
    ensures
        ({
            let t = skip_v(s@);
            match r {
                Some(ver) => parse_version_spec(t) == Some(
                    (ver.major, ver.minor, ver.patch, ver.pre@, ver.build@),
                ) && valid_version(ver),
                None => parse_version_spec(t) is None,
            }
        }),
{
    let chars = str_chars(s);
    let mut i: usize = 0;
    while i < chars.len() && chars[i] == 'v'
        invariant
            i <= chars@.len(),
            chars@ == s@,
            forall|j: int| 0 <= j < i ==> s@[j] == 'v',
        decreases chars@.len() - i,
    {
        i = i + 1;
    }
    proof {
        lemma_v_run_is(s@, 0, i as int);
    }
    let rest = copy_range(&chars, i, chars.len());
    proof {
        assert(rest@ =~= skip_v(s@));
    }
    parse_version(&rest)
}

/// The length of the run of `v` characters starting the sequence.
pub open spec fn v_run(s: Seq<char>, i: int) -> nat
    decreases s.len() - i when 0 <= i <= s.len()
{
    if i < s.len() && s[i] == 'v' {
        1 + v_run(s, i + 1)
    } else {
        0
    }
}

/// The sequence with every leading `v` removed.
pub open spec fn skip_v(s: Seq<char>) -> Seq<char> {
    s.subrange(v_run(s, 0) as int, s.len() as int)
}

proof fn lemma_v_run_is(s: Seq<char>, i: int, k: int)
    requires
        0 <= i <= k <= s.len(),
        forall|j: int| i <= j < k ==> s[j] == 'v',
        k < s.len() ==> s[k] != 'v',
    ensures
        i + v_run(s, i) == k,
    decreases k - i,
{
    if i < k {
        lemma_v_run_is(s, i + 1, k);
    }
}

// ------------------------------------------------------------------------
// Ordering
// ------------------------------------------------------------------------

/// Lexicographic order on character sequences from position `i` on, by
/// code point.
pub open spec fn chars_lt_from(a: Seq<char>, b: Seq<char>, i: int) -> bool
    decreases a.len() - i when 0 <= i
{
    if i >= b.len() {
        false
    } else if i >= a.len() {
        true
    } else if a[i] < b[i] {
        true
    } else if b[i] < a[i] {
        false
    } else {
        chars_lt_from(a, b, i + 1)
    }
}

/// Lexicographic order on character sequences, by code point.
pub open spec fn chars_lt(a: Seq<char>, b: Seq<char>) -> bool {
    chars_lt_from(a, b, 0)
}

/// Strict order on versions: by the triple, then pre-release (a version
/// with pre-release text precedes the same triple without; two pre-release
/// texts compare lexicographically by code point, not by the numeric
/// identifier order of full semantic-versioning precedence), then build
/// text as a final tiebreak.
pub open spec fn version_lt(a: Version, b: Version) -> bool {
    if a.major != b.major {
        a.major < b.major
    } else if a.minor != b.minor {
        a.minor < b.minor
    } else if a.patch != b.patch {
        a.patch < b.patch
    } else if (a.pre@.len() > 0) != (b.pre@.len() > 0) {
        a.pre@.len() > 0
    } else if a.pre@ != b.pre@ {
        chars_lt(a.pre@, b.pre@)
    } else if a.build@ != b.build@ {
        chars_lt(a.build@, b.build@)
    } else {
        false
    }
}

/// Structural equality of versions at the view level.
pub open spec fn version_eq(a: Version, b: Version) -> bool {
    a.major == b.major && a.minor == b.minor && a.patch == b.patch && a.pre@ == b.pre@ && a.build@
        == b.build@
}

proof fn lemma_chars_lt_from_total(a: Seq<char>, b: Seq<char>, i: int)
    requires
        0 <= i <= a.len(),
        i <= b.len(),
    ensures
        chars_lt_from(a, b, i) || chars_lt_from(b, a, i) || (a.len() == b.len() && forall|k: int|
            i <= k < a.len() ==> a[k] == b[k]),
        !(chars_lt_from(a, b, i) && chars_lt_from(b, a, i)),
    decreases a.len() - i,
{
    if i < a.len() && i < b.len() && a[i] == b[i] {
        lemma_chars_lt_from_total(a, b, i + 1);
    }
}

pub proof fn lemma_chars_lt_total(a: Seq<char>, b: Seq<char>)
    ensures
        chars_lt(a, b) || chars_lt(b, a) || a == b,
        !(chars_lt(a, b) && chars_lt(b, a)),
{
    lemma_chars_lt_from_total(a, b, 0);
    if !chars_lt(a, b) && !chars_lt(b, a) {
        assert(a =~= b);
    }
}

proof fn lemma_chars_lt_from_trans(a: Seq<char>, b: Seq<char>, c: Seq<char>, i: int)
    requires
        0 <= i,
        chars_lt_from(a, b, i),
        chars_lt_from(b, c, i),
    ensures
        chars_lt_from(a, c, i),
    decreases a.len() - i,
{
    if i < a.len() && i < b.len() && i < c.len() && a[i] == b[i] && b[i] == c[i] {
        lemma_chars_lt_from_trans(a, b, c, i + 1);
    }
}

pub proof fn lemma_chars_lt_trans(a: Seq<char>, b: Seq<char>, c: Seq<char>)
    requires
        chars_lt(a, b),
        chars_lt(b, c),
    ensures
        chars_lt(a, c),
{
    lemma_chars_lt_from_trans(a, b, c, 0);
}

/// The version order is total: two versions are ordered or equal.
pub proof fn lemma_version_lt_total(a: Version, b: Version)
    ensures
        version_lt(a, b) || version_lt(b, a) || version_eq(a, b),
        !(version_lt(a, b) && version_lt(b, a)),
        version_eq(a, b) ==> !version_lt(a, b) && !version_lt(b, a),
{
    lemma_chars_lt_total(a.pre@, b.pre@);
    lemma_chars_lt_total(a.build@, b.build@);
}

/// The version order is transitive.
pub proof fn lemma_version_lt_trans(a: Version, b: Version, c: Version)
    requires
        version_lt(a, b),
        version_lt(b, c),
    ensures
        version_lt(a, c),
{
    lemma_chars_lt_total(a.pre@, b.pre@);
    lemma_chars_lt_total(b.pre@, c.pre@);
    lemma_chars_lt_total(a.build@, b.build@);
    lemma_chars_lt_total(b.build@, c.build@);
    if a.major == c.major && a.minor == c.minor && a.patch == c.patch {
        if a.pre@ != b.pre@ && b.pre@ != c.pre@ && (a.pre@.len() > 0) == (b.pre@.len() > 0) && (
        b.pre@.len() > 0) == (c.pre@.len() > 0) {
            lemma_chars_lt_trans(a.pre@, b.pre@, c.pre@);
        }
        if a.pre@ == b.pre@ && b.pre@ == c.pre@ && a.build@ != b.build@ && b.build@ != c.build@ {
            lemma_chars_lt_trans(a.build@, b.build@, c.build@);
        }
    }
}

/// Compares two character vectors lexicographically: `-1`, `0` or `1`.
pub(crate) fn chars_cmp(a: &Vec<char>, b: &Vec<char>) -> (r: i8)
    ensures
        r == -1 ==> chars_lt(a@, b@),
        r == 1 ==> chars_lt(b@, a@),
        r == 0 ==> a@ == b@,
        r == -1 || r == 0 || r == 1,
{
    let mut i: usize = 0;
    loop
        invariant
            i <= a@.len(),
            i <= b@.len(),
            forall|k: int| 0 <= k < i ==> a@[k] == b@[k],
            chars_lt(a@, b@) == chars_lt_from(a@, b@, i as int),
            chars_lt(b@, a@) == chars_lt_from(b@, a@, i as int),
        decreases a@.len() - i,
    {
        if i == a.len() && i == b.len() {
            proof {
                assert(a@ =~= b@);
            }
            return 0;
        }
        if i == a.len() {
            assert(chars_lt_from(a@, b@, i as int));
            return -1;
        }
        if i == b.len() {
            assert(chars_lt_from(b@, a@, i as int));
            return 1;
        }
        if a[i] < b[i] {
            assert(chars_lt_from(a@, b@, i as int));
            return -1;
        }
        if b[i] < a[i] {
            assert(chars_lt_from(b@, a@, i as int));
            return 1;
        }
        proof {
            assert(a@[i as int] == b@[i as int]);
            assert(chars_lt_from(a@, b@, i as int) == chars_lt_from(a@, b@, i + 1));
            assert(chars_lt_from(b@, a@, i as int) == chars_lt_from(b@, a@, i + 1));
        }
        i = i + 1;
    }
}

/// Compares two versions under the version order: `-1`, `0` or `1`.
pub fn version_cmp(a: &Version, b: &Version) -> (r: i8)
    ensures
        r == -1 ==> version_lt(*a, *b),
        r == 1 ==> version_lt(*b, *a),
        r == 0 ==> version_eq(*a, *b),
        r == -1 || r == 0 || r == 1,
{
    if a.major != b.major {
        return if a.major < b.major {
            -1
        } else {
            1
        };
    }
    if a.minor != b.minor {
        return if a.minor < b.minor {
            -1
        } else {
            1
        };
    }
    if a.patch != b.patch {
        return if a.patch < b.patch {
            -1
        } else {
            1
        };
    }
    let ap = str_chars(a.pre.as_str());
    let bp = str_chars(b.pre.as_str());
    if ap.len() > 0 && bp.len() == 0 {
        return -1;
    }
    if ap.len() == 0 && bp.len() > 0 {
        return 1;
    }
    let c = chars_cmp(&ap, &bp);
    if c != 0 {
        proof {
            lemma_chars_lt_total(a.pre@, b.pre@);
        }
        return c;
    }
    let ab = str_chars(a.build.as_str());
    let bb = str_chars(b.build.as_str());
    let d = chars_cmp(&ab, &bb);
    proof {
        lemma_chars_lt_total(a.build@, b.build@);
    }
    d
}

} // verus!
