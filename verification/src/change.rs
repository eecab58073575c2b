//! Conventional-commit changes: parsing a single-line commit summary into
//! a kind, breaking flag, cleaned summary and issue references, and the
//! display form that round-trips back through the parser.

use vstd::prelude::*;

use crate::text::{
    all_digits, chars_to_string, copy_range, dec_digits, dec_val, digit_char, digit_run,
    insert_sorted_u32, is_digit_char, is_alpha_char, is_upper_char, is_white_char,
    lemma_digit_run, parse_dec_u32, push_dec_u32, sorted_strict_u32, str_chars, trim_range,
    trim_spec, upper_char, white_char, alpha_char,
};
use crate::version::Increment;

verus! {

// ------------------------------------------------------------------------
// Kinds
// ------------------------------------------------------------------------

/// The kind of a change, drawn from the closed conventional-commit set.
#[derive(Clone, Copy, Debug, PartialEq, Eq, Structural)]
pub enum Kind {
    /// A new feature.
    Feature,
    /// A bug fix.
    Fix,
    /// A performance improvement.
    Performance,
    /// A refactoring.
    Refactor,
    /// A build change.
    Build,
    /// A documentation change.
    Docs,
    /// A formatting change.
    Style,
    /// A test change.
    Test,
    /// A chore.
    Chore,
}

/// The keyword of a kind.
pub open spec fn kind_text(k: Kind) -> Seq<char> {
    match k {
        Kind::Feature => "feature"@,
        Kind::Fix => "fix"@,
        Kind::Performance => "performance"@,
        Kind::Refactor => "refactor"@,
        Kind::Build => "build"@,
        Kind::Docs => "docs"@,
        Kind::Style => "style"@,
        Kind::Test => "test"@,
        Kind::Chore => "chore"@,
    }
}

/// The kind named by a token, if any.
pub open spec fn kind_of(s: Seq<char>) -> Option<Kind> {
    if s == "feature"@ {
        Some(Kind::Feature)
    } else if s == "fix"@ {
        Some(Kind::Fix)
    } else if s == "performance"@ {
        Some(Kind::Performance)
    } else if s == "refactor"@ {
        Some(Kind::Refactor)
    } else if s == "build"@ {
        Some(Kind::Build)
    } else if s == "docs"@ {
        Some(Kind::Docs)
    } else if s == "style"@ {
        Some(Kind::Style)
    } else if s == "test"@ {
        Some(Kind::Test)
    } else if s == "chore"@ {
        Some(Kind::Chore)
    } else {
        None
    }
}

impl Kind {
    /// Attempts to read a kind from its keyword.
    pub fn from_str(value: &str) -> (r: Result<Kind, ParseError>)
        ensures
            match r {
                Ok(k) => kind_of(value@) == Some(k),
                Err(e) => kind_of(value@) is None && e == ParseError::Kind,
            },
    {
        let v = str_chars(value);
        proof {
            assert(v@.subrange(0, v@.len() as int) =~= value@);
        }
        match kind_of_range(&v, 0, v.len()) {
            Some(k) => Ok(k),
            None => Err(ParseError::Kind),
        }
    }
}

// ------------------------------------------------------------------------
// Errors
// ------------------------------------------------------------------------

/// Why a commit summary was rejected. The checks run in this order: the
/// `": "` separator with no whitespace right before it (`Format`), the
/// kind keyword (`Kind`), no leading or trailing whitespace on the summary
/// (`Whitespace`), references wrapped in parentheses (`Reference`), then
/// casing and final punctuation on the cleaned summary.
#[derive(Clone, Copy, Debug, PartialEq, Eq, Structural)]
pub enum ParseError {
    /// No `": "` separator, or whitespace right before it.
    Format,
    /// The type token is not a kind keyword.
    Kind,
    /// The summary begins or ends with whitespace.
    Whitespace,
    /// The summary begins with an uppercase letter that does not start an
    /// acronym.
    Casing,
    /// The summary ends with sentence punctuation.
    Punctuation,
    /// A reference is not wrapped in parentheses.
    Reference,
}

// ------------------------------------------------------------------------
// Scanning specifications
// ------------------------------------------------------------------------

/// The position of the first `": "` at or after `i`, or the length when
/// there is none.
pub open spec fn first_sep(s: Seq<char>, i: int) -> int
    decreases s.len() - i when 0 <= i
{
    if i + 1 >= s.len() {
        s.len() as int
    } else if s[i] == ':' && s[i + 1] == ' ' {
        i
    } else {
        first_sep(s, i + 1)
    }
}

/// The position of the first `!` at or after `i`, bounded by `hi`.
pub open spec fn first_bang(s: Seq<char>, i: int, hi: int) -> int
    decreases hi - i when 0 <= i <= hi
{
    if i >= hi {
        hi
    } else if s[i] == '!' {
        i
    } else {
        first_bang(s, i + 1, hi)
    }
}

/// The value of the reference whose `#` stands at `i`.
pub open spec fn ref_val(s: Seq<char>, i: int) -> int {
    dec_val(s.subrange(i + 1, i + 1 + digit_run(s, i + 1)))
}

/// Whether a reference occurrence starts at `i`: a `#` followed by at
/// least one digit, with a value that fits in 32 bits.
pub open spec fn ref_at(s: Seq<char>, i: int) -> bool {
    &&& 0 <= i < s.len()
    &&& s[i] == '#'
    &&& digit_run(s, i + 1) >= 1
    &&& ref_val(s, i) <= u32::MAX
}

/// Whether the reference at `i` is wrapped in parentheses, with the
/// opening parenthesis after `start`.
pub open spec fn wrapped(s: Seq<char>, start: int, i: int) -> bool {
    &&& i >= start + 1
    &&& s[i - 1] == '('
    &&& i + 1 + digit_run(s, i + 1) < s.len()
    &&& s[i + 1 + digit_run(s, i + 1)] == ')'
}

/// Scans `s` from `i` with the current segment starting at `start`:
/// yields the raw segments between wrapped references and the set of
/// reference values, or nothing when a reference is not wrapped.
pub open spec fn extract_from(s: Seq<char>, i: int, start: int) -> Option<
    (Seq<Seq<char>>, Set<u32>),
>
    decreases s.len() - i when 0 <= start <= i
{
    if i >= s.len() {
        Some((seq![s.subrange(start, s.len() as int)], Set::empty()))
    } else if ref_at(s, i) {
        if wrapped(s, start, i) {
            let c = i + 1 + digit_run(s, i + 1);
            match extract_from(s, c + 1, c + 1) {
                None => None,
                Some((segs, refs)) => Some(
                    (seq![s.subrange(start, i - 1)] + segs, refs.insert(ref_val(s, i) as u32)),
                ),
            }
        } else {
            None
        }
    } else {
        extract_from(s, i + 1, start)
    }
}

/// The views of a list of character vectors.
pub open spec fn segs_of(parts: Seq<Vec<char>>) -> Seq<Seq<char>> {
    parts.map_values(|p: Vec<char>| p@)
}

/// Joins the trimmed nonempty segments from `idx` on with single spaces.
pub open spec fn join_clean_from(segs: Seq<Seq<char>>, idx: int) -> Seq<char>
    decreases segs.len() - idx when 0 <= idx
{
    if idx >= segs.len() {
        Seq::empty()
    } else {
        let t = trim_spec(segs[idx]);
        let rest = join_clean_from(segs, idx + 1);
        if t.len() == 0 {
            rest
        } else if rest.len() == 0 {
            t
        } else {
            t + seq![' '] + rest
        }
    }
}

/// The length of the run of non-whitespace characters starting at `i`.
pub open spec fn nonwhite_run(s: Seq<char>, i: int) -> nat
    decreases s.len() - i when 0 <= i <= s.len()
{
    if i < s.len() && !is_white_char(s[i]) {
        1 + nonwhite_run(s, i + 1)
    } else {
        0
    }
}

/// Whether every alphabetic character of a word is uppercase.
pub open spec fn acronym_ok(w: Seq<char>) -> bool {
    forall|j: int| 0 <= j < w.len() ==> (is_alpha_char(#[trigger] w[j]) ==> is_upper_char(w[j]))
}

/// Whether a cleaned summary violates the casing rule: it begins with an
/// uppercase letter whose first whitespace-delimited word is no acronym.
pub open spec fn casing_err(s: Seq<char>) -> bool {
    s.len() > 0 && is_upper_char(s[0]) && !acronym_ok(s.subrange(0, nonwhite_run(s, 0) as int))
}

/// Whether a cleaned summary ends with sentence punctuation.
pub open spec fn punct_err(s: Seq<char>) -> bool {
    s.len() > 0 && (s.last() == '.' || s.last() == '!' || s.last() == '?' || s.last() == ','
        || s.last() == ';' || s.last() == ':')
}

// ------------------------------------------------------------------------
// The parse, as one specification
// ------------------------------------------------------------------------

/// The mathematical content of a parsed change.
pub ghost struct ChangeModel {
    /// The change kind.
    pub kind: Kind,
    /// The cleaned summary.
    pub summary: Seq<char>,
    /// The set of referenced issue numbers.
    pub references: Set<u32>,
    /// Whether the change is breaking.
    pub breaking: bool,
}

/// The outcome of parsing a commit summary line.
pub open spec fn parse_change(s: Seq<char>) -> Result<ChangeModel, ParseError> {
    let p = first_sep(s, 0);
    if p == s.len() {
        Err(ParseError::Format)
    } else if p > 0 && is_white_char(s[p - 1]) {
        // whitespace right before the separator: a malformed `": "`
        Err(ParseError::Format)
    } else {
        let ktok = s.subrange(0, p);
        let after = s.subrange(p + 2, s.len() as int);
        let bang = first_bang(ktok, 0, ktok.len() as int);
        let breaking = bang < ktok.len();
        match kind_of(ktok.subrange(0, bang)) {
            None => Err(ParseError::Kind),
            Some(kind) => if after.len() > 0 && (is_white_char(after[0]) || is_white_char(
                after.last(),
            )) {
                Err(ParseError::Whitespace)
            } else {
                match extract_from(after, 0, 0) {
                    None => Err(ParseError::Reference),
                    Some((segs, refs)) => {
                        let cleaned = join_clean_from(segs, 0);
                        if casing_err(cleaned) {
                            Err(ParseError::Casing)
                        } else if punct_err(cleaned) {
                            Err(ParseError::Punctuation)
                        } else {
                            Ok(ChangeModel { kind, summary: cleaned, references: refs, breaking })
                        }
                    },
                }
            },
        }
    }
}

/// The increment a change calls for: Minor for a feature, Patch for a
/// fix, performance improvement or refactoring, none otherwise; breaking
/// lifts an existing increment to Major.
pub open spec fn as_increment_spec(k: Kind, breaking: bool) -> Option<Increment> {
    match k {
        Kind::Feature => Some(
            if breaking {
                Increment::Major
            } else {
                Increment::Minor
            },
        ),
        Kind::Fix | Kind::Performance | Kind::Refactor => Some(
            if breaking {
                Increment::Major
            } else {
                Increment::Patch
            },
        ),
        _ => None,
    }
}

/// The display text of a change's reference list from `idx` on.
pub open spec fn refs_items_from(refs: Seq<u32>, idx: int) -> Seq<char>
    decreases refs.len() - idx when 0 <= idx
{
    if idx >= refs.len() {
        Seq::empty()
    } else {
        seq!['#'] + dec_digits(refs[idx] as int) + (if idx + 1 < refs.len() {
            seq![',', ' ']
        } else {
            Seq::empty()
        }) + refs_items_from(refs, idx + 1)
    }
}

/// The display text of a change: `<kind>[!]: <summary>[ (#a, #b)]`.
pub open spec fn display_text(k: Kind, breaking: bool, summary: Seq<char>, refs: Seq<u32>) -> Seq<
    char,
> {
    kind_text(k) + (if breaking {
        seq!['!']
    } else {
        Seq::empty()
    }) + seq![':', ' '] + summary + (if refs.len() > 0 {
        seq![' ', '('] + refs_items_from(refs, 0) + seq![')']
    } else {
        Seq::empty()
    })
}

// ------------------------------------------------------------------------
// Changes
// ------------------------------------------------------------------------

/// A parsed conventional-commit change.
#[derive(Debug)]
pub struct Change {
    /// The change kind.
    pub kind: Kind,
    /// The cleaned summary.
    pub summary: String,
    /// The referenced issue numbers, ascending.
    pub references: Vec<u32>,
    /// Whether the change is breaking.
    pub is_breaking: bool,
}

impl Change {
    /// The mathematical content of this change.
    pub open spec fn model(self) -> ChangeModel {
        ChangeModel {
            kind: self.kind,
            summary: self.summary@,
            references: self.references@.to_set(),
            breaking: self.is_breaking,
        }
    }

    /// Whether the stored reference list is sorted and duplicate-free.
    pub open spec fn wf(self) -> bool {
        sorted_strict_u32(self.references@)
    }

    /// Returns the change kind.
    pub fn kind(&self) -> (r: Kind)
        ensures
            r == self.kind,
    {
        self.kind
    }

    /// Returns the change summary.
    pub fn summary(&self) -> (r: &str)
        ensures
            r@ == self.model().summary,
    {
        self.summary.as_str()
    }

    /// Returns the change references, in ascending order.
    pub fn references(&self) -> (r: &Vec<u32>)
        ensures
            r@.to_set() == self.model().references,
            r@ == self.references@,
    {
        &self.references
    }

    /// Returns whether the change is breaking.
    pub fn is_breaking(&self) -> (r: bool)
        ensures
            r == self.model().breaking,
    {
        self.is_breaking
    }

    /// Returns the corresponding version increment.
    pub fn as_increment(&self) -> (r: Option<Increment>)
        ensures
            r == as_increment_spec(self.kind, self.is_breaking),
    {
        match self.kind {
            Kind::Feature => Some(
                if self.is_breaking {
                    Increment::Major
                } else {
                    Increment::Minor
                },
            ),
            Kind::Fix | Kind::Performance | Kind::Refactor => Some(
                if self.is_breaking {
                    Increment::Major
                } else {
                    Increment::Patch
                },
            ),
            _ => None,
        }
    }
}

/// A breaking change whose kind maps to any increment is always a major
/// increment.
pub proof fn lemma_breaking_is_major(k: Kind, breaking: bool)
    ensures
        breaking && as_increment_spec(k, breaking) is Some ==> as_increment_spec(k, breaking)
            == Some(Increment::Major),
{
}

// ------------------------------------------------------------------------
// Parsing (executable)
// ------------------------------------------------------------------------

/// Finds the first `": "` in `v`, as `first_sep` does.
fn find_sep(v: &Vec<char>) -> (r: usize)
    ensures
        r as int == first_sep(v@, 0),
        r <= v@.len(),
{
    let n = v.len();
    if n == 0 {
        return n;
    }
    let mut i: usize = 0;
    while i + 1 < n
        invariant
            n == v@.len(),
            i < n,
            first_sep(v@, 0) == first_sep(v@, i as int),
        decreases n - i,
    {
        if v[i] == ':' && v[i + 1] == ' ' {
            return i;
        }
        proof {
            assert(first_sep(v@, i as int) == first_sep(v@, i + 1));
        }
        i = i + 1;
    }
    proof {
        assert(first_sep(v@, i as int) == v@.len());
    }
    n
}

/// Finds the first `!` in `v[0..hi]`, as `first_bang` does.
fn find_bang(v: &Vec<char>, hi: usize) -> (r: usize)
    requires
        hi <= v@.len(),
    ensures
        r as int == first_bang(v@, 0, hi as int),
        r <= hi,
{
    let mut i: usize = 0;
    while i < hi
        invariant
            hi <= v@.len(),
            i <= hi,
            first_bang(v@, 0, hi as int) == first_bang(v@, i as int, hi as int),
        decreases hi - i,
    {
        if v[i] == '!' {
            return i;
        }
        proof {
            assert(first_bang(v@, i as int, hi as int) == first_bang(v@, i + 1, hi as int));
        }
        i = i + 1;
    }
    hi
}

/// Whether `v[lo..hi]` equals the text of `w`.
pub(crate) fn range_eq_str(v: &Vec<char>, lo: usize, hi: usize, w: &str) -> (r: bool)
    requires
        lo <= hi <= v@.len(),
    ensures
        r == (v@.subrange(lo as int, hi as int) == w@),
{
    let wc = str_chars(w);
    if hi - lo != wc.len() {
        proof {
            assert(v@.subrange(lo as int, hi as int).len() != w@.len());
        }
        return false;
    }
    let mut i: usize = 0;
    while i < wc.len()
        invariant
            lo <= hi <= v@.len(),
            hi - lo == wc@.len(),
            wc@ == w@,
            i <= wc@.len(),
            forall|k: int| 0 <= k < i ==> v@.subrange(lo as int, hi as int)[k] == w@[k],
        decreases wc@.len() - i,
    {
        if v[lo + i] != wc[i] {
            proof {
                assert(v@.subrange(lo as int, hi as int)[i as int] != w@[i as int]);
            }
            return false;
        }
        proof {
            assert(v@.subrange(lo as int, hi as int)[i as int] == v@[lo + i]);
        }
        i = i + 1;
    }
    proof {
        assert(v@.subrange(lo as int, hi as int) =~= w@);
    }
    true
}

/// Reads the kind named by `v[lo..hi]`, as `kind_of` does.
fn kind_of_range(v: &Vec<char>, lo: usize, hi: usize) -> (r: Option<Kind>)
    requires
        lo <= hi <= v@.len(),
    ensures
        r == kind_of(v@.subrange(lo as int, hi as int)),
{
    if range_eq_str(v, lo, hi, "feature") {
        Some(Kind::Feature)
    } else if range_eq_str(v, lo, hi, "fix") {
        Some(Kind::Fix)
    } else if range_eq_str(v, lo, hi, "performance") {
        Some(Kind::Performance)
    } else if range_eq_str(v, lo, hi, "refactor") {
        Some(Kind::Refactor)
    } else if range_eq_str(v, lo, hi, "build") {
        Some(Kind::Build)
    } else if range_eq_str(v, lo, hi, "docs") {
        Some(Kind::Docs)
    } else if range_eq_str(v, lo, hi, "style") {
        Some(Kind::Style)
    } else if range_eq_str(v, lo, hi, "test") {
        Some(Kind::Test)
    } else if range_eq_str(v, lo, hi, "chore") {
        Some(Kind::Chore)
    } else {
        None
    }
}

/// The length of the digit run at `i`, computed as `digit_run` states it.
pub(crate) fn digit_run_at(v: &Vec<char>, i: usize) -> (r: usize)
    requires
        i <= v@.len(),
    ensures
        r as nat == digit_run(v@, i as int),
        i + r <= v@.len(),
{
    proof {
        lemma_digit_run(v@, i as int);
    }
    let mut j = i;
    while j < v.len() && digit_char(v[j])
        invariant
            i <= j <= v@.len(),
            forall|k: int| i <= k < j ==> is_digit_char(#[trigger] v@[k]),
            j - i <= digit_run(v@, i as int),
        decreases v@.len() - j,
    {
        proof {
            lemma_digit_run(v@, i as int);
        }
        j = j + 1;
    }
    proof {
        lemma_digit_run(v@, i as int);
    }
    j - i
}

/// Scans `v` from `i` as `extract_from` does, yielding the segments and
/// the sorted reference values.
fn extract_rec(v: &Vec<char>, i: usize, start: usize) -> (r: Option<(Vec<Vec<char>>, Vec<u32>)>)
    requires
        start <= i,
        i <= v@.len() + 1,
        start <= v@.len(),
    ensures
        match extract_from(v@, i as int, start as int) {
            None => r is None,
            Some((segs, refs)) => match r {
                None => false,
                Some((parts, out)) => segs_of(parts@) == segs && sorted_strict_u32(out@)
                    && out@.to_set() == refs,
            },
        },
    decreases v@.len() + 1 - i,
{
    if i >= v.len() {
        let seg = copy_range(v, start, v.len());
        let mut parts: Vec<Vec<char>> = Vec::new();
        parts.push(seg);
        let refs: Vec<u32> = Vec::new();
        proof {
            assert(segs_of(parts@) =~= seq![v@.subrange(start as int, v@.len() as int)]);
            assert(refs@.to_set() =~= Set::<u32>::empty());
        }
        return Some((parts, refs));
    }
    if v[i] == '#' {
        let run = digit_run_at(v, i + 1);
        if run >= 1 {
            proof {
                lemma_digit_run(v@, i + 1);
                assert(all_digits(v@.subrange(i + 1, i + 1 + run)));
            }
            match parse_dec_u32(v, i + 1, i + 1 + run) {
                Some(value) => {
                    assert(ref_at(v@, i as int));
                    let c = i + run;
                    // the closing position is one past the digit run
                    if i >= start + 1 && v[i - 1] == '(' && c + 1 < v.len() && v[c + 1] == ')' {
                        assert(wrapped(v@, start as int, i as int));
                        match extract_rec(v, c + 2, c + 2) {
                            None => {
                                return None;
                            },
                            Some((mut parts, mut refs)) => {
                                let seg = copy_range(v, start, i - 1);
                                let ghost old_parts = parts@;
                                parts.insert(0, seg);
                                insert_sorted_u32(&mut refs, value);
                                proof {
                                    let (spec_segs, spec_refs) = extract_from(
                                        v@,
                                        c + 2,
                                        c + 2,
                                    ).unwrap();
                                    assert(segs_of(parts@) =~= seq![
                                        v@.subrange(start as int, i - 1),
                                    ] + spec_segs) by {
                                        assert(parts@ == old_parts.insert(0, seg));
                                        old_parts.insert_ensures(0, seg);
                                        assert(parts@[0] == seg);
                                        assert(forall|k: int| 0 <= k < old_parts.len()
                                            ==> parts@[k + 1] == old_parts[k]);
                                        assert(forall|k: int| 1 <= k < parts@.len()
                                            ==> #[trigger] segs_of(parts@)[k] == segs_of(
                                            old_parts,
                                        )[k - 1]);
                                    }
                                }
                                return Some((parts, refs));
                            },
                        }
                    } else {
                        assert(!wrapped(v@, start as int, i as int));
                        return None;
                    }
                },
                None => {
                    // the digits overflow 32 bits, so this is no reference
                    proof {
                        crate::text::lemma_dec_val_nonneg(v@.subrange(i + 1, i + 1 + run));
                        assert(!ref_at(v@, i as int));
                    }
                    return extract_rec(v, i + 1, start);
                },
            }
        } else {
            assert(!ref_at(v@, i as int));
            return extract_rec(v, i + 1, start);
        }
    }
    assert(!ref_at(v@, i as int));
    extract_rec(v, i + 1, start)
}

/// Joins the trimmed nonempty parts from `idx` on with single spaces, as
/// `join_clean_from` does.
fn join_parts(parts: &Vec<Vec<char>>, idx: usize) -> (r: Vec<char>)
    requires
        idx <= parts@.len(),
    ensures
        r@ == join_clean_from(segs_of(parts@), idx as int),
    decreases parts@.len() - idx,
{
    if idx >= parts.len() {
        let empty: Vec<char> = Vec::new();
        return empty;
    }
    let part = &parts[idx];
    let (a, b) = trim_range(part, 0, part.len());
    proof {
        assert(part@.subrange(0, part@.len() as int) =~= part@);
        assert(segs_of(parts@)[idx as int] == part@);
    }
    let t = copy_range(part, a, b);
    let rest = join_parts(parts, idx + 1);
    if t.len() == 0 {
        return rest;
    }
    if rest.len() == 0 {
        return t;
    }
    let mut out = t;
    out.push(' ');
    let mut k: usize = 0;
    let ghost head = out@;
    while k < rest.len()
        invariant
            k <= rest@.len(),
            out@ == head + rest@.subrange(0, k as int),
        decreases rest@.len() - k,
    {
        out.push(rest[k]);
        proof {
            assert(rest@.subrange(0, k + 1) =~= rest@.subrange(0, k as int) + seq![rest@[k as int]]);
        }
        k = k + 1;
    }
    proof {
        assert(rest@.subrange(0, rest@.len() as int) =~= rest@);
        assert(out@ =~= trim_spec(segs_of(parts@)[idx as int]) + seq![' '] + rest@);
    }
    out
}

/// The length of the non-whitespace run at `i`.
pub(crate) fn nonwhite_run_at(v: &Vec<char>, i: usize) -> (r: usize)
    requires
        i <= v@.len(),
    ensures
        r as nat == nonwhite_run(v@, i as int),
        i + r <= v@.len(),
{
    let mut j = i;
    while j < v.len() && !white_char(v[j])
        invariant
            i <= j <= v@.len(),
            nonwhite_run(v@, i as int) == (j - i) + nonwhite_run(v@, j as int),
        decreases v@.len() - j,
    {
        proof {
            assert(nonwhite_run(v@, j as int) == 1 + nonwhite_run(v@, j + 1));
        }
        j = j + 1;
    }
    proof {
        assert(nonwhite_run(v@, j as int) == 0);
    }
    j - i
}

/// Whether the cleaned summary violates the casing rule.
fn casing_err_check(v: &Vec<char>) -> (r: bool)
    ensures
        r == casing_err(v@),
{
    if v.len() == 0 {
        return false;
    }
    if !upper_char(v[0]) {
        return false;
    }
    let e = nonwhite_run_at(v, 0);
    let ghost w = v@.subrange(0, nonwhite_run(v@, 0) as int);
    let mut j: usize = 0;
    while j < e
        invariant
            v@.len() > 0,
            is_upper_char(v@[0]),
            e as nat == nonwhite_run(v@, 0),
            e <= v@.len(),
            j <= e,
            w == v@.subrange(0, e as int),
            forall|k: int| 0 <= k < j ==> (is_alpha_char(#[trigger] w[k]) ==> is_upper_char(w[k])),
        decreases e - j,
    {
        assert(w[j as int] == v@[j as int]);
        let aj = alpha_char(v[j]);
        let uj = upper_char(v[j]);
        if aj && !uj {
            proof {
                assert(is_alpha_char(w[j as int]) && !is_upper_char(w[j as int]));
                assert(!acronym_ok(w)) by {
                    assert(0 <= j < w.len() && is_alpha_char(w[j as int]) && !is_upper_char(
                        w[j as int],
                    ));
                }
                assert(casing_err(v@));
            }
            return true;
        }
        j = j + 1;
    }
    assert(acronym_ok(w));
    false
}

/// Whether the cleaned summary ends with sentence punctuation.
fn punct_err_check(v: &Vec<char>) -> (r: bool)
    ensures
        r == punct_err(v@),
{
    if v.len() == 0 {
        return false;
    }
    let c = v[v.len() - 1];
    assert(c == v@.last());
    c == '.' || c == '!' || c == '?' || c == ',' || c == ';' || c == ':'
}

impl Change {
    /// Attempts to parse a change from a single-line commit summary.
    ///
    /// The line must read `<kind>[!]: <summary>`, where the kind is one of
    /// the nine keywords; everything between a `!` and the separator is
    /// ignored, and whitespace right before the separator is a format
    /// error. The summary must carry no surrounding whitespace. References
    /// `(#n)` are removed from the summary and collected; a bare `#n` is
    /// rejected. The cleaned summary must not begin with a non-acronym
    /// uppercase word nor end in punctuation.
    pub fn from_str(s: &str) -> (r: Result<Change, ParseError>)
        ensures
            match r {
                Ok(c) => parse_change(s@) == Ok::<ChangeModel, ParseError>(c.model()) && c.wf(),
                Err(e) => parse_change(s@) == Err::<ChangeModel, ParseError>(e),
            },
    {
        let v = str_chars(s);
        let n = v.len();
        let p = find_sep(&v);
        if p == n {
            return Err(ParseError::Format);
        }
        proof {
            lemma_first_sep_bounds(v@, 0);
        }
        if p > 0 && white_char(v[p - 1]) {
            return Err(ParseError::Format);
        }
        let ghost ktok = v@.subrange(0, p as int);
        let ghost after_spec = v@.subrange(p + 2, v@.len() as int);
        let bang = find_bang(&v, p);
        proof {
            lemma_first_bang_prefix(v@, p as int, bang as int);
        }
        let breaking = bang < p;
        let Some(kind) = kind_of_range(&v, 0, bang) else {
            proof {
                assert(ktok.subrange(0, bang as int) =~= v@.subrange(0, bang as int));
            }
            return Err(ParseError::Kind);
        };
        proof {
            assert(ktok.subrange(0, bang as int) =~= v@.subrange(0, bang as int));
        }
        let after = copy_range(&v, p + 2, n);
        if after.len() > 0 {
            let lead = white_char(after[0]);
            let trail = white_char(after[after.len() - 1]);
            if lead || trail {
                assert(after@.last() == after_spec.last());
                return Err(ParseError::Whitespace);
            }
        }
        let Some((parts, refs)) = extract_rec(&after, 0, 0) else {
            return Err(ParseError::Reference);
        };
        let cleaned = join_parts(&parts, 0);
        if casing_err_check(&cleaned) {
            return Err(ParseError::Casing);
        }
        if punct_err_check(&cleaned) {
            return Err(ParseError::Punctuation);
        }
        let c = Change {
            kind,
            summary: chars_to_string(&cleaned),
            references: refs,
            is_breaking: breaking,
        };
        Ok(c)
    }
}

/// The first separator is within bounds or the sentinel length, and when
/// it is a position, a `": "` stands there.
proof fn lemma_first_sep_bounds(s: Seq<char>, i: int)
    requires
        0 <= i <= s.len(),
    ensures
        i <= first_sep(s, i) <= s.len(),
        first_sep(s, i) < s.len() ==> first_sep(s, i) + 2 <= s.len(),
    decreases s.len() - i,
{
    if i + 1 < s.len() && !(s[i] == ':' && s[i + 1] == ' ') {
        lemma_first_sep_bounds(s, i + 1);
    }
}

/// The first bang within the token prefix is the same whether sought in
/// the token or in the whole line.
proof fn lemma_first_bang_prefix(s: Seq<char>, p: int, b: int)
    requires
        0 <= p <= s.len(),
        b == first_bang(s, 0, p),
    ensures
        first_bang(s.subrange(0, p), 0, p) == b,
{
    lemma_first_bang_sub(s, p, 0);
}

proof fn lemma_first_bang_sub(s: Seq<char>, p: int, i: int)
    requires
        0 <= i <= p <= s.len(),
    ensures
        first_bang(s.subrange(0, p), i, p) == first_bang(s, i, p),
    decreases p - i,
{
    if i < p {
        assert(s.subrange(0, p)[i] == s[i]);
        if s[i] != '!' {
            lemma_first_bang_sub(s, p, i + 1);
        }
    }
}

// ------------------------------------------------------------------------
// Display
// ------------------------------------------------------------------------

/// Appends the display text of the references from `idx` on.
pub(crate) fn push_refs(refs: &Vec<u32>, idx: usize, out: &mut Vec<char>)
    requires
        idx <= refs@.len(),
    ensures
        final(out)@ == old(out)@ + refs_items_from(refs@, idx as int),
    decreases refs@.len() - idx,
{
    if idx >= refs.len() {
        proof {
            assert(out@ =~= old(out)@ + refs_items_from(refs@, idx as int));
        }
        return;
    }
    out.push('#');
    push_dec_u32(refs[idx], out);
    if idx + 1 < refs.len() {
        out.push(',');
        out.push(' ');
    }
    let ghost before = out@;
    push_refs(refs, idx + 1, out);
    proof {
        assert(out@ =~= old(out)@ + refs_items_from(refs@, idx as int));
    }
}

/// Appends every character of `w` to `out`.
pub(crate) fn push_chars(w: &Vec<char>, out: &mut Vec<char>)
    ensures
        final(out)@ == old(out)@ + w@,
{
    let mut k: usize = 0;
    while k < w.len()
        invariant
            k <= w@.len(),
            out@ == old(out)@ + w@.subrange(0, k as int),
        decreases w@.len() - k,
    {
        out.push(w[k]);
        proof {
            assert(w@.subrange(0, k + 1) =~= w@.subrange(0, k as int) + seq![w@[k as int]]);
        }
        k = k + 1;
    }
    proof {
        assert(w@.subrange(0, w@.len() as int) =~= w@);
    }
}

/// Appends every character of `w` to `out`.
pub(crate) fn push_str(w: &str, out: &mut Vec<char>)
    ensures
        final(out)@ == old(out)@ + w@,
{
    let chars = str_chars(w);
    push_chars(&chars, out);
}

impl Change {
    /// The display form of the change: `<kind>[!]: <summary>[ (#a, #b)]`,
    /// with references in ascending order.
    pub fn display(&self) -> (r: String)
        ensures
            r@ == display_text(self.kind, self.is_breaking, self.model().summary,
                self.references@),
    {
        let mut out: Vec<char> = Vec::new();
        match self.kind {
            Kind::Feature => push_str("feature", &mut out),
            Kind::Fix => push_str("fix", &mut out),
            Kind::Performance => push_str("performance", &mut out),
            Kind::Refactor => push_str("refactor", &mut out),
            Kind::Build => push_str("build", &mut out),
            Kind::Docs => push_str("docs", &mut out),
            Kind::Style => push_str("style", &mut out),
            Kind::Test => push_str("test", &mut out),
            Kind::Chore => push_str("chore", &mut out),
        }
        if self.is_breaking {
            out.push('!');
        }
        out.push(':');
        out.push(' ');
        let sc = str_chars(self.summary.as_str());
        push_chars(&sc, &mut out);
        if self.references.len() > 0 {
            out.push(' ');
            out.push('(');
            push_refs(&self.references, 0, &mut out);
            out.push(')');
        }
        proof {
            assert(out@ =~= display_text(self.kind, self.is_breaking, self.summary@,
                self.references@));
        }
        chars_to_string(&out)
    }
}

// ------------------------------------------------------------------------
// The round trip
// ------------------------------------------------------------------------

/// Whether a sequence holds no reference occurrence at all.
pub open spec fn no_refs(s: Seq<char>) -> bool {
    forall|i: int| !(#[trigger] ref_at(s, i))
}

/// Scanning a span with no reference yields it as the one segment.
proof fn lemma_extract_clean(s: Seq<char>, i: int, start: int)
    requires
        0 <= start <= i,
        i <= s.len(),
        no_refs(s),
    ensures
        extract_from(s, i, start) == Some((seq![s.subrange(start, s.len() as int)], Set::<
            u32,
        >::empty())),
    decreases s.len() - i,
{
    if i < s.len() {
        assert(!ref_at(s, i));
        lemma_extract_clean(s, i + 1, start);
    }
}

/// The first separator of a text whose prefix holds no separator.
proof fn lemma_first_sep_from(s: Seq<char>, i: int, k: int)
    requires
        0 <= i <= k,
        k + 1 < s.len(),
        forall|j: int| #![trigger s[j]] i <= j < k ==> !(s[j] == ':' && s[j + 1] == ' '),
        s[k] == ':' && s[k + 1] == ' ',
    ensures
        first_sep(s, i) == k,
    decreases k - i,
{
    if i < k {
        lemma_first_sep_from(s, i + 1, k);
    }
}

/// The first bang of a token whose prefix holds none.
proof fn lemma_first_bang_from(s: Seq<char>, i: int, k: int, hi: int)
    requires
        0 <= i <= k <= hi,
        forall|j: int| #![trigger s[j]] i <= j < k ==> s[j] != '!',
        k < hi ==> s[k] == '!',
        hi <= s.len(),
    ensures
        first_bang(s, i, hi) == if k < hi {
            k
        } else {
            hi
        },
    decreases k - i,
{
    if i < k {
        lemma_first_bang_from(s, i + 1, k, hi);
    }
}

/// Every kind keyword is nonempty, holds no colon or bang, and names its
/// own kind.
proof fn lemma_kind_text_ok(k: Kind)
    ensures
        kind_text(k).len() >= 1,
        forall|j: int| 0 <= j < kind_text(k).len() ==> kind_text(k)[j] != ':' && kind_text(k)[j]
            != '!' && !crate::text::is_white_char(kind_text(k)[j]),
        kind_of(kind_text(k)) == Some(k),
{
    reveal_strlit("feature");
    reveal_strlit("fix");
    reveal_strlit("performance");
    reveal_strlit("refactor");
    reveal_strlit("build");
    reveal_strlit("docs");
    reveal_strlit("style");
    reveal_strlit("test");
    reveal_strlit("chore");
    let t = kind_text(k);
    match k {
        Kind::Feature => {
            assert(t =~= seq!['f', 'e', 'a', 't', 'u', 'r', 'e']);
        },
        Kind::Fix => {
            assert(t =~= seq!['f', 'i', 'x']);
        },
        Kind::Performance => {
            assert(t =~= seq!['p', 'e', 'r', 'f', 'o', 'r', 'm', 'a', 'n', 'c', 'e']);
        },
        Kind::Refactor => {
            assert(t =~= seq!['r', 'e', 'f', 'a', 'c', 't', 'o', 'r']);
        },
        Kind::Build => {
            assert(t =~= seq!['b', 'u', 'i', 'l', 'd']);
        },
        Kind::Docs => {
            assert(t =~= seq!['d', 'o', 'c', 's']);
        },
        Kind::Style => {
            assert(t =~= seq!['s', 't', 'y', 'l', 'e']);
        },
        Kind::Test => {
            assert(t =~= seq!['t', 'e', 's', 't']);
        },
        Kind::Chore => {
            assert(t =~= seq!['c', 'h', 'o', 'r', 'e']);
        },
    }
    assert forall|j: int| 0 <= j < t.len() implies t[j] != ':' && t[j] != '!'
        && !crate::text::is_white_char(t[j]) by {
        assert(t[j] == t[j]);
    }
}

/// Parsing the display form of a reference-free change yields the change
/// back: the round trip for every kind, breaking flag and cleaned summary
/// that a parse can produce.
pub proof fn lemma_display_reparses(kind: Kind, breaking: bool, summary: Seq<char>)
    requires
        crate::text::is_trimmed(summary),
        no_refs(summary),
        !casing_err(summary),
        !punct_err(summary),
    ensures
        parse_change(display_text(kind, breaking, summary, Seq::empty())) == Ok::<
            ChangeModel,
            ParseError,
        >(ChangeModel { kind, summary, references: Set::empty(), breaking }),
{
    let d = display_text(kind, breaking, summary, Seq::empty());
    let kt = kind_text(kind);
    let bang: int = if breaking {
        1
    } else {
        0
    };
    let p = kt.len() + bang;
    lemma_kind_text_ok(kind);
    assert(d.len() == p + 2 + summary.len());
    assert(forall|j: int| 0 <= j < kt.len() ==> d[j] == kt[j]);
    assert(breaking ==> d[kt.len() as int] == '!');
    assert(d[p] == ':' && d[p + 1] == ' ');
    assert(forall|j: int| p + 2 <= j < d.len() ==> d[j] == summary[j - p - 2]);
    // the separator stands right after the type token
    assert(first_sep(d, 0) == p) by {
        lemma_first_sep_from(d, 0, p as int);
    }
    let ktok = d.subrange(0, p as int);
    assert(ktok.len() == p);
    assert(forall|j: int| 0 <= j < kt.len() ==> ktok[j] == kt[j]);
    // the bang, when present, is the first one
    if breaking {
        assert(ktok[kt.len() as int] == '!');
        lemma_first_bang_from(ktok, 0, kt.len() as int, ktok.len() as int);
        assert(first_bang(ktok, 0, ktok.len() as int) == kt.len());
    } else {
        lemma_first_bang_from(ktok, 0, ktok.len() as int, ktok.len() as int);
        assert(first_bang(ktok, 0, ktok.len() as int) == ktok.len());
    }
    let b = first_bang(ktok, 0, ktok.len() as int);
    assert(b == kt.len());
    assert(ktok.subrange(0, b) =~= kt);
    assert(kind_of(ktok.subrange(0, b)) == Some(kind));
    assert((b < ktok.len()) == breaking);
    let after = d.subrange(p + 2, d.len() as int);
    assert(after =~= summary);
    // no leading or trailing whitespace on the displayed summary
    assert(after.len() > 0 ==> !crate::text::is_white_char(after[0]));
    assert(after.len() > 0 ==> !crate::text::is_white_char(after.last()));
    // the summary scans back as one clean segment
    lemma_extract_clean(after, 0, 0);
    let segs = seq![after.subrange(0, after.len() as int)];
    assert(after.subrange(0, after.len() as int) =~= summary);
    assert(extract_from(after, 0, 0) == Some((segs, Set::<u32>::empty())));
    // joining the one segment gives the summary back
    crate::text::lemma_trim_trimmed(summary);
    assert(join_clean_from(segs, 1) =~= Seq::<char>::empty());
    assert(join_clean_from(segs, 0) == summary) by {
        assert(segs[0] == summary);
        assert(crate::text::trim_spec(segs[0]) == summary);
        if summary.len() == 0 {
            assert(join_clean_from(segs, 0) =~= summary);
        }
    }
    assert(parse_change(d) == Ok::<ChangeModel, ParseError>(
        ChangeModel { kind, summary, references: Set::empty(), breaking },
    ));
}

/// Scanning skips positions without a reference.
proof fn lemma_scan_skip(s: Seq<char>, i: int, t: int, start: int)
    requires
        0 <= start <= i <= t <= s.len(),
        forall|j: int| i <= j < t ==> !(#[trigger] ref_at(s, j)),
    ensures
        extract_from(s, i, start) == extract_from(s, t, start),
    decreases t - i,
{
    if i < t {
        lemma_scan_skip(s, i + 1, t, start);
    }
}

/// Digit runs below `m` agree between a text and its prefix of length `m`
/// when the character at `m` is no digit.
proof fn lemma_run_prefix(s2: Seq<char>, m: int, j: int)
    requires
        0 <= j <= m < s2.len(),
        !is_digit_char(s2[m]),
    ensures
        digit_run(s2, j) == digit_run(s2.subrange(0, m), j),
    decreases m - j,
{
    let sum = s2.subrange(0, m);
    if j < m && is_digit_char(s2[j]) {
        lemma_run_prefix(s2, m, j + 1);
    }
}

/// Parsing the display form of a one-reference change yields the change
/// back: the round trip for a nonempty cleaned summary and one issue.
#[verifier::rlimit(100)]
pub proof fn lemma_display_reparses_one_ref(kind: Kind, breaking: bool, summary: Seq<char>, n: u32)
    requires
        crate::text::is_trimmed(summary),
        no_refs(summary),
        !casing_err(summary),
        !punct_err(summary),
        summary.len() > 0,
    ensures
        parse_change(display_text(kind, breaking, summary, seq![n])) == Ok::<
            ChangeModel,
            ParseError,
        >(ChangeModel { kind, summary, references: Set::empty().insert(n), breaking }),
{
    let d = display_text(kind, breaking, summary, seq![n]);
    let kt = kind_text(kind);
    let bang: int = if breaking {
        1
    } else {
        0
    };
    let p = kt.len() + bang;
    let dd = dec_digits(n as int);
    let ghost ll = dd.len();
    lemma_kind_text_ok(kind);
    crate::text::lemma_dec_digits_digits(n as int);
    crate::text::lemma_dec_digits_value(n as int);
    let m = summary.len() as int;
    // lay the display text out position by position
    assert(refs_items_from(seq![n], 1) =~= Seq::<char>::empty());
    assert(refs_items_from(seq![n], 0) =~= seq!['#'] + dd);
    assert(d.len() == p + 2 + m + 4 + ll);
    assert(forall|j: int| 0 <= j < kt.len() ==> d[j] == kt[j]);
    assert(breaking ==> d[kt.len() as int] == '!');
    assert(d[p] == ':' && d[p + 1] == ' ');
    let after = d.subrange(p + 2, d.len() as int);
    assert(after.len() == m + 4 + ll);
    assert(forall|j: int| 0 <= j < m ==> after[j] == summary[j]);
    assert(after[m] == ' ' && after[m + 1] == '(' && after[m + 2] == '#');
    assert(forall|j: int| 0 <= j < ll ==> after[m + 3 + j] == dd[j]);
    assert(after.last() == ')' && after[m + 3 + ll] == ')');
    // the separator and the type token read back as before
    assert(first_sep(d, 0) == p) by {
        lemma_first_sep_from(d, 0, p as int);
    }
    let ktok = d.subrange(0, p as int);
    assert(forall|j: int| 0 <= j < kt.len() ==> ktok[j] == kt[j]);
    if breaking {
        assert(ktok[kt.len() as int] == '!');
        lemma_first_bang_from(ktok, 0, kt.len() as int, ktok.len() as int);
    } else {
        lemma_first_bang_from(ktok, 0, ktok.len() as int, ktok.len() as int);
    }
    let b = first_bang(ktok, 0, ktok.len() as int);
    assert(b == kt.len());
    assert(ktok.subrange(0, b) =~= kt);
    assert((b < ktok.len()) == breaking);
    // the displayed summary starts and ends with visible characters
    assert(!crate::text::is_white_char(after[0]));
    assert(!crate::text::is_white_char(after.last()));
    // no reference hides in the summary part
    assert(after.subrange(0, m) =~= summary);
    assert forall|j: int| 0 <= j < m + 2 implies !(#[trigger] ref_at(after, j)) by {
        if j < m {
            assert(!is_digit_char(after[m]));
            if after[j] == '#' {
                lemma_run_prefix(after, m, j + 1);
                crate::text::lemma_digit_run(summary, j + 1);
                assert(digit_run(after, j + 1) == digit_run(summary, j + 1));
                if digit_run(after, j + 1) >= 1 && ref_val(after, j) <= u32::MAX {
                    assert(after.subrange(j + 1, j + 1 + digit_run(after, j + 1)) =~= summary
                        .subrange(j + 1, j + 1 + digit_run(summary, j + 1)));
                    assert(ref_at(summary, j));
                }
            }
        } else {
            assert(after[j] != '#');
        }
    }
    lemma_scan_skip(after, 0, m + 2, 0);
    // the appended reference scans as one wrapped occurrence
    assert(digit_run(after, m + 3) == ll) by {
        crate::text::lemma_digit_run_is(after, m + 3, m + 3 + ll);
    }
    assert(ref_at(after, m + 2)) by {
        assert(after.subrange(m + 3, m + 3 + ll) =~= dd);
    }
    assert(wrapped(after, 0, m + 2));
    let c = m + 2 + 1 + digit_run(after, m + 3);
    assert(c == m + 3 + ll);
    assert(c + 1 == after.len());
    assert(extract_from(after, c + 1, c + 1) == Some(
        (seq![after.subrange(c + 1, after.len() as int)], Set::<u32>::empty()),
    ));
    let ghost tail_seg = after.subrange(c + 1, after.len() as int);
    assert(tail_seg.len() == 0);
    let ghost head_seg = after.subrange(0, m + 1);
    assert(head_seg =~= summary.push(' '));
    assert(ref_val(after, m + 2) == n) by {
        assert(after.subrange(m + 3, m + 3 + ll) =~= dd);
    }
    let segs = seq![head_seg] + seq![tail_seg];
    assert(extract_from(after, m + 2, 0) == Some(
        (segs, Set::<u32>::empty().insert(n)),
    )) by {
        assert(seq![after.subrange(0, m + 2 - 1)] + seq![tail_seg] =~= segs);
    }
    // joining gives the summary back
    crate::text::lemma_trim_trailing_blank(summary);
    assert(join_clean_from(segs, 2) =~= Seq::<char>::empty());
    assert(crate::text::trim_spec(segs[1]) =~= Seq::<char>::empty()) by {
        crate::text::lemma_trim_trimmed(tail_seg);
    }
    assert(join_clean_from(segs, 1) =~= Seq::<char>::empty());
    assert(segs[0] == summary.push(' '));
    assert(crate::text::trim_spec(segs[0]) == summary);
    assert(join_clean_from(segs, 0) == summary);
    assert(parse_change(d) == Ok::<ChangeModel, ParseError>(
        ChangeModel { kind, summary, references: Set::empty().insert(n), breaking },
    ));
}

} // verus!
