//! Text utilities: character classification, trimming, splitting and
//! decimal conversion over character sequences.

use vstd::prelude::*;
use vstd::string::*;

verus! {

// ------------------------------------------------------------------------
// Character classification
// ------------------------------------------------------------------------

/// Whether a character beyond ASCII has the Unicode White_Space property.
pub uninterp spec fn is_white_beyond_ascii(c: char) -> bool;

/// Whether a character beyond ASCII has the Unicode Uppercase property.
pub uninterp spec fn is_upper_beyond_ascii(c: char) -> bool;

/// Whether a character beyond ASCII has the Unicode Alphabetic property.
pub uninterp spec fn is_alpha_beyond_ascii(c: char) -> bool;

/// Whether a character has the Unicode White_Space property: in the ASCII
/// range exactly the space and the blank control characters.
pub open spec fn is_white_char(c: char) -> bool {
    if c as u32 <= 0x7f {
        c == ' ' || c == '\t' || c == '\n' || c == '\r' || c as u32 == 0x0b || c as u32 == 0x0c
    } else {
        is_white_beyond_ascii(c)
    }
}

/// Whether a character has the Unicode Uppercase property: in the ASCII
/// range exactly the letters A to Z.
pub open spec fn is_upper_char(c: char) -> bool {
    if c as u32 <= 0x7f {
        0x41 <= c as u32 && c as u32 <= 0x5a
    } else {
        is_upper_beyond_ascii(c)
    }
}

/// Whether a character has the Unicode Alphabetic property: in the ASCII
/// range exactly the letters.
pub open spec fn is_alpha_char(c: char) -> bool {
    if c as u32 <= 0x7f {
        (0x41 <= c as u32 && c as u32 <= 0x5a) || (0x61 <= c as u32 && c as u32 <= 0x7a)
    } else {
        is_alpha_beyond_ascii(c)
    }
}

/// Relies on char::is_whitespace: the Unicode White_Space property, a
/// function of the character alone, which on ASCII holds exactly of the
/// space and the blank control characters.
#[verifier::external_body]
pub fn white_char(c: char) -> (r: bool)
    ensures
        r == is_white_char(c),
        c as u32 > 0x7f ==> r == is_white_beyond_ascii(c),
{
    c.is_whitespace()
}

/// Relies on char::is_uppercase: the Unicode Uppercase property, a
/// function of the character alone, which on ASCII holds exactly of the
/// letters A to Z.
#[verifier::external_body]
pub fn upper_char(c: char) -> (r: bool)
    ensures
        r == is_upper_char(c),
        c as u32 > 0x7f ==> r == is_upper_beyond_ascii(c),
{
    c.is_uppercase()
}

/// Relies on char::is_alphabetic: the Unicode Alphabetic property, a
/// function of the character alone, which on ASCII holds exactly of the
/// letters.
#[verifier::external_body]
pub fn alpha_char(c: char) -> (r: bool)
    ensures
        r == is_alpha_char(c),
        c as u32 > 0x7f ==> r == is_alpha_beyond_ascii(c),
{
    c.is_alphabetic()
}

/// Whether a character is an ASCII decimal digit.
pub open spec fn is_digit_char(c: char) -> bool {
    0x30 <= c as u32 && c as u32 <= 0x39
}

/// The numeric value of an ASCII decimal digit.
pub open spec fn digit_val(c: char) -> int {
    c as u32 - 0x30
}

pub fn digit_char(c: char) -> (r: bool)
    ensures
        r == is_digit_char(c),
{
    let u = c as u32;
    0x30 <= u && u <= 0x39
}

// ------------------------------------------------------------------------
// Strings and character vectors
// ------------------------------------------------------------------------

/// Collects the characters of a string slice into a vector.
pub fn str_chars(s: &str) -> (v: Vec<char>)
    ensures
        v@ == s@,
{
    let n = s.unicode_len();
    let mut v: Vec<char> = Vec::new();
    let mut i: usize = 0;
    while i < n
        invariant
            n == s@.len(),
            i <= n,
            v@ == s@.subrange(0, i as int),
        decreases n - i,
    {
        v.push(s.get_char(i));
        i = i + 1;
    }
    proof {
        assert(v@ =~= s@);
    }
    v
}

/// Clones a string.
pub fn clone_string(s: &String) -> (r: String)
    ensures
        r@ == s@,
{
    let c = str_chars(s.as_str());
    chars_to_string(&c)
}

/// Relies on String's FromIterator over characters: the collected string
/// holds exactly the given characters in order.
#[verifier::external_body]
pub fn chars_to_string(v: &Vec<char>) -> (s: String)
    ensures
        s@ == v@,
{
    v.iter().collect()
}

// ------------------------------------------------------------------------
// Trimming
// ------------------------------------------------------------------------

/// The number of leading whitespace characters of a sequence.
pub open spec fn leading_white(s: Seq<char>) -> nat
    decreases s.len(),
{
    if s.len() == 0 || !is_white_char(s[0]) {
        0
    } else {
        1 + leading_white(s.drop_first())
    }
}

/// The number of trailing whitespace characters of a sequence.
pub open spec fn trailing_white(s: Seq<char>) -> nat
    decreases s.len(),
{
    if s.len() == 0 || !is_white_char(s.last()) {
        0
    } else {
        1 + trailing_white(s.drop_last())
    }
}

/// The sequence with leading and trailing whitespace removed.
pub open spec fn trim_spec(s: Seq<char>) -> Seq<char> {
    if leading_white(s) == s.len() {
        Seq::empty()
    } else {
        s.subrange(leading_white(s) as int, s.len() - trailing_white(s))
    }
}

/// Whether a sequence carries no leading or trailing whitespace.
pub open spec fn is_trimmed(s: Seq<char>) -> bool {
    s.len() > 0 ==> !is_white_char(s[0]) && !is_white_char(s.last())
}

pub proof fn lemma_leading_white(s: Seq<char>)
    ensures
        leading_white(s) <= s.len(),
        forall|i: int| 0 <= i < leading_white(s) ==> is_white_char(#[trigger] s[i]),
        leading_white(s) < s.len() ==> !is_white_char(s[leading_white(s) as int]),
    decreases s.len(),
{
    if s.len() > 0 && is_white_char(s[0]) {
        lemma_leading_white(s.drop_first());
        assert forall|i: int| 0 <= i < leading_white(s) implies is_white_char(#[trigger] s[i]) by {
            if i > 0 {
                assert(s.drop_first()[i - 1] == s[i]);
            }
        }
        if leading_white(s) < s.len() {
            assert(s.drop_first()[leading_white(s) - 1] == s[leading_white(s) as int]);
        }
    }
}

pub proof fn lemma_trailing_white(s: Seq<char>)
    ensures
        trailing_white(s) <= s.len(),
        forall|i: int| s.len() - trailing_white(s) <= i < s.len() ==> is_white_char(#[trigger] s[i]),
        trailing_white(s) < s.len() ==> !is_white_char(s[s.len() - trailing_white(s) - 1]),
    decreases s.len(),
{
    if s.len() > 0 && is_white_char(s.last()) {
        lemma_trailing_white(s.drop_last());
        assert forall|i: int| s.len() - trailing_white(s) <= i < s.len()
            implies is_white_char(#[trigger] s[i]) by {
            if i < s.len() - 1 {
                assert(s.drop_last()[i] == s[i]);
            }
        }
        if trailing_white(s) < s.len() {
            assert(s.drop_last()[s.len() - trailing_white(s) - 1] == s[s.len() - trailing_white(s)
                - 1]);
        }
    }
}

/// If whitespace runs exactly up to `k` from the left, `k` is the count of
/// leading whitespace.
pub proof fn lemma_leading_white_is(s: Seq<char>, k: int)
    requires
        0 <= k <= s.len(),
        forall|i: int| 0 <= i < k ==> is_white_char(#[trigger] s[i]),
        k < s.len() ==> !is_white_char(s[k]),
    ensures
        leading_white(s) == k,
    decreases s.len(),
{
    if s.len() > 0 && is_white_char(s[0]) {
        assert(forall|i: int| 0 <= i < k - 1 ==> #[trigger] s.drop_first()[i] == s[i + 1]);
        lemma_leading_white_is(s.drop_first(), k - 1);
    }
}

/// If whitespace runs exactly up to `k` from the right, `k` is the count of
/// trailing whitespace.
pub proof fn lemma_trailing_white_is(s: Seq<char>, k: int)
    requires
        0 <= k <= s.len(),
        forall|i: int| s.len() - k <= i < s.len() ==> is_white_char(#[trigger] s[i]),
        k < s.len() ==> !is_white_char(s[s.len() - k - 1]),
    ensures
        trailing_white(s) == k,
    decreases s.len(),
{
    if s.len() > 0 && is_white_char(s.last()) {
        assert(forall|i: int| 0 <= i < s.len() - 1 ==> #[trigger] s.drop_last()[i] == s[i]);
        lemma_trailing_white_is(s.drop_last(), k - 1);
    }
}

/// The trimmed form of a sequence is trimmed, and a trimmed sequence is its
/// own trimmed form.
pub proof fn lemma_trim_trimmed(s: Seq<char>)
    ensures
        is_trimmed(trim_spec(s)),
        is_trimmed(s) ==> trim_spec(s) == s,
{
    lemma_leading_white(s);
    lemma_trailing_white(s);
    if leading_white(s) < s.len() {
        // the first retained character is not white, so the trailing run
        // stops before it
        if trailing_white(s) > s.len() - leading_white(s) {
            assert(is_white_char(s[leading_white(s) as int]));
        }
        assert(trailing_white(s) <= s.len() - leading_white(s) - 1 || trailing_white(s) == s.len()
            - leading_white(s));
        if trailing_white(s) == s.len() - leading_white(s) {
            assert(is_white_char(s[leading_white(s) as int]));
        }
        assert(leading_white(s) + trailing_white(s) < s.len());
    }
    if is_trimmed(s) {
        if s.len() > 0 {
            lemma_leading_white_is(s, 0);
            lemma_trailing_white_is(s, 0);
            assert(trim_spec(s) =~= s);
        } else {
            assert(trim_spec(s) =~= s);
        }
    }
}

/// Returns the bounds of the trimmed span of `v[lo..hi]`.
pub fn trim_range(v: &Vec<char>, lo: usize, hi: usize) -> (r: (usize, usize))
    requires
        lo <= hi <= v@.len(),
    ensures
        lo <= r.0 <= r.1 <= hi,
        v@.subrange(r.0 as int, r.1 as int) == trim_spec(v@.subrange(lo as int, hi as int)),
        ({
            let s = v@.subrange(lo as int, hi as int);
            if leading_white(s) < s.len() {
                r.0 as int == lo + leading_white(s) && r.1 as int == hi - trailing_white(s)
            } else {
                r.0 == r.1
            }
        }),
{
    let ghost s = v@.subrange(lo as int, hi as int);
    let mut a = lo;
    while a < hi && white_char(v[a])
        invariant
            lo <= a <= hi <= v@.len(),
            s == v@.subrange(lo as int, hi as int),
            forall|i: int| 0 <= i < a - lo ==> is_white_char(#[trigger] s[i]),
        decreases hi - a,
    {
        assert(s[a - lo] == v@[a as int]);
        a = a + 1;
    }
    if a == hi {
        proof {
            lemma_leading_white_is(s, s.len() as int);
            assert(v@.subrange(a as int, a as int) =~= trim_spec(s));
        }
        return (a, a);
    }
    assert(s[a - lo] == v@[a as int]);
    proof {
        lemma_leading_white_is(s, a - lo);
    }
    let mut b = hi;
    while b > a && white_char(v[b - 1])
        invariant
            lo <= a <= b <= hi <= v@.len(),
            s == v@.subrange(lo as int, hi as int),
            !is_white_char(s[a - lo]),
            forall|i: int| b - lo <= i < s.len() ==> is_white_char(#[trigger] s[i]),
        decreases b,
    {
        assert(s[b - 1 - lo] == v@[b - 1]);
        b = b - 1;
    }
    assert(s[b - 1 - lo] == v@[b - 1]);
    proof {
        lemma_trailing_white_is(s, hi - b);
        assert(v@.subrange(a as int, b as int) =~= trim_spec(s));
    }
    (a, b)
}

// ------------------------------------------------------------------------
// Runs and decimal numbers
// ------------------------------------------------------------------------

/// The length of the run of ASCII digits starting at `i`.
pub open spec fn digit_run(s: Seq<char>, i: int) -> nat
    decreases s.len() - i when 0 <= i <= s.len()
{
    if i < s.len() && is_digit_char(s[i]) {
        1 + digit_run(s, i + 1)
    } else {
        0
    }
}

pub proof fn lemma_digit_run(s: Seq<char>, i: int)
    requires
        0 <= i <= s.len(),
    ensures
        i + digit_run(s, i) <= s.len(),
        forall|j: int| i <= j < i + digit_run(s, i) ==> is_digit_char(#[trigger] s[j]),
        i + digit_run(s, i) < s.len() ==> !is_digit_char(s[i + digit_run(s, i)]),
    decreases s.len() - i,
{
    if i < s.len() && is_digit_char(s[i]) {
        lemma_digit_run(s, i + 1);
    }
}

/// The value of a sequence of ASCII digits read as a decimal number.
pub open spec fn dec_val(s: Seq<char>) -> int
    decreases s.len(),
{
    if s.len() == 0 {
        0
    } else {
        dec_val(s.drop_last()) * 10 + digit_val(s.last())
    }
}

/// Whether every character of a sequence is an ASCII digit.
pub open spec fn all_digits(s: Seq<char>) -> bool {
    forall|i: int| 0 <= i < s.len() ==> is_digit_char(#[trigger] s[i])
}

/// The decimal value of a digit sequence is never negative.
pub proof fn lemma_dec_val_nonneg(s: Seq<char>)
    requires
        all_digits(s),
    ensures
        dec_val(s) >= 0,
    decreases s.len(),
{
    if s.len() > 0 {
        assert(forall|i: int| 0 <= i < s.len() - 1 ==> #[trigger] s.drop_last()[i] == s[i]);
        lemma_dec_val_nonneg(s.drop_last());
        assert(is_digit_char(s.last()));
        assert(dec_val(s.drop_last()) * 10 >= 0) by (nonlinear_arith)
            requires dec_val(s.drop_last()) >= 0;
    }
}

/// Reads the decimal value of `v[lo..hi]`, if it is a nonempty all-digit
/// span whose value fits in 32 bits.
pub fn parse_dec_u32(v: &Vec<char>, lo: usize, hi: usize) -> (r: Option<u32>)
    requires
        lo <= hi <= v@.len(),
        all_digits(v@.subrange(lo as int, hi as int)),
    ensures
        ({
            let s = v@.subrange(lo as int, hi as int);
            if s.len() > 0 && dec_val(s) <= u32::MAX {
                r == Some(dec_val(s) as u32)
            } else {
                r is None
            }
        }),
{
    let ghost s = v@.subrange(lo as int, hi as int);
    if lo == hi {
        return None;
    }
    let mut acc: u64 = 0;
    let mut i = lo;
    while i < hi
        invariant
            lo <= i <= hi <= v@.len(),
            s == v@.subrange(lo as int, hi as int),
            all_digits(s),
            acc == dec_val(s.subrange(0, i - lo)) || (acc > u32::MAX && dec_val(s.subrange(0, i - lo)) > u32::MAX),
            acc <= 0xf_ffff_ffffu64,
        decreases hi - i,
    {
        assert(is_digit_char(s[i - lo]));
        assert(v@[i as int] == s[i - lo]);
        let d: u64 = (v[i] as u32) as u64 - 0x30;
        proof {
            lemma_dec_val_nonneg(s.subrange(0, i - lo));
            assert(s.subrange(0, i - lo + 1).drop_last() =~= s.subrange(0, i - lo));
            assert(s.subrange(0, i - lo + 1).last() == s[i - lo]);
        }
        if acc > u32::MAX as u64 {
            // the running value already exceeds the target range; keep a
            // saturated witness so the overflow is remembered
            proof {
                let p = s.subrange(0, i - lo);
                let q = s.subrange(0, i - lo + 1);
                assert(dec_val(q) == dec_val(p) * 10 + digit_val(s[i - lo]));
                assert(dec_val(p) * 10 >= dec_val(p)) by (nonlinear_arith)
                    requires dec_val(p) >= 0;
            }
            acc = 0x1_0000_0000u64;
        } else {
            acc = acc * 10 + d;
            proof {
                let p = s.subrange(0, i - lo);
                let q = s.subrange(0, i - lo + 1);
                assert(dec_val(q) == dec_val(p) * 10 + digit_val(s[i - lo]));
            }
        }
        i = i + 1;
    }
    proof {
        assert(s.subrange(0, hi - lo) =~= s);
    }
    if acc > u32::MAX as u64 {
        None
    } else {
        Some(acc as u32)
    }
}

/// Reads the decimal value of `v[lo..hi]`, if it is a nonempty all-digit
/// span whose value fits in 64 bits.
pub fn parse_dec_u64(v: &Vec<char>, lo: usize, hi: usize) -> (r: Option<u64>)
    requires
        lo <= hi <= v@.len(),
        all_digits(v@.subrange(lo as int, hi as int)),
    ensures
        ({
            let s = v@.subrange(lo as int, hi as int);
            if s.len() > 0 && dec_val(s) <= u64::MAX {
                r == Some(dec_val(s) as u64)
            } else {
                r is None
            }
        }),
{
    let ghost s = v@.subrange(lo as int, hi as int);
    if lo == hi {
        return None;
    }
    let mut acc: u64 = 0;
    let mut over: bool = false;
    let mut i = lo;
    while i < hi
        invariant
            lo <= i <= hi <= v@.len(),
            s == v@.subrange(lo as int, hi as int),
            all_digits(s),
            !over ==> acc == dec_val(s.subrange(0, i - lo)),
            over ==> dec_val(s.subrange(0, i - lo)) > u64::MAX,
        decreases hi - i,
    {
        assert(is_digit_char(s[i - lo]));
        assert(v@[i as int] == s[i - lo]);
        let d: u64 = (v[i] as u32) as u64 - 0x30;
        proof {
            lemma_dec_val_nonneg(s.subrange(0, i - lo));
            assert(s.subrange(0, i - lo + 1).drop_last() =~= s.subrange(0, i - lo));
            assert(s.subrange(0, i - lo + 1).last() == s[i - lo]);
            let p = s.subrange(0, i - lo);
            let q = s.subrange(0, i - lo + 1);
            assert(dec_val(q) == dec_val(p) * 10 + digit_val(s[i - lo]));
        }
        if over {
            proof {
                let p = s.subrange(0, i - lo);
                assert(dec_val(p) * 10 >= dec_val(p)) by (nonlinear_arith)
                    requires dec_val(p) >= 0;
            }
        } else if acc > (u64::MAX - d) / 10 {
            proof {
                let p = s.subrange(0, i - lo);
                assert(dec_val(p) * 10 + d > u64::MAX) by (nonlinear_arith)
                    requires
                        dec_val(p) == acc,
                        acc > (u64::MAX - d) / 10,
                        0 <= d <= 9,
                ;
            }
            over = true;
        } else {
            proof {
                assert(acc * 10 + d <= u64::MAX) by (nonlinear_arith)
                    requires
                        acc <= (u64::MAX - d) / 10,
                        0 <= d <= 9,
                ;
            }
            acc = acc * 10 + d;
        }
        i = i + 1;
    }
    proof {
        assert(s.subrange(0, hi - lo) =~= s);
    }
    if over {
        None
    } else {
        Some(acc)
    }
}

/// The decimal digits of a number, most significant first.
pub open spec fn dec_digits(n: int) -> Seq<char>
    decreases n when n >= 0
{
    if 0 <= n < 10 {
        seq![((0x30 + n) as u32) as char]
    } else if n >= 10 {
        dec_digits(n / 10).push(((0x30 + n % 10) as u32) as char)
    } else {
        Seq::empty()
    }
}

/// Appends the decimal digits of `n` to `out`.
pub fn push_dec_u64(n: u64, out: &mut Vec<char>)
    ensures
        final(out)@ == old(out)@ + dec_digits(n as int),
    decreases n,
{
    if n < 10 {
        let c = ((0x30 + (n as u32)) as u8) as char;
        out.push(c);
        proof {
            assert(out@ =~= old(out)@ + dec_digits(n as int));
        }
    } else {
        push_dec_u64(n / 10, out);
        let c = ((0x30 + ((n % 10) as u32)) as u8) as char;
        out.push(c);
        proof {
            assert(out@ =~= old(out)@ + dec_digits(n as int));
        }
    }
}

/// Appends the decimal digits of a 32-bit number to `out`.
pub fn push_dec_u32(n: u32, out: &mut Vec<char>)
    ensures
        final(out)@ == old(out)@ + dec_digits(n as int),
{
    push_dec_u64(n as u64, out);
}

/// Copies the span `v[lo..hi]` into a fresh vector.
pub fn copy_range(v: &Vec<char>, lo: usize, hi: usize) -> (r: Vec<char>)
    requires
        lo <= hi <= v@.len(),
    ensures
        r@ == v@.subrange(lo as int, hi as int),
{
    let mut out: Vec<char> = Vec::new();
    let mut i = lo;
    while i < hi
        invariant
            lo <= i <= hi <= v@.len(),
            out@ == v@.subrange(lo as int, i as int),
        decreases hi - i,
    {
        out.push(v[i]);
        proof {
            assert(v@.subrange(lo as int, i + 1) =~= v@.subrange(lo as int, i as int)
                + seq![v@[i as int]]);
        }
        i = i + 1;
    }
    out
}


/// The decimal digits of a number are ASCII digits, at least one.
pub proof fn lemma_dec_digits_digits(n: int)
    requires
        n >= 0,
    ensures
        dec_digits(n).len() >= 1,
        all_digits(dec_digits(n)),
    decreases n,
{
    if n >= 10 {
        lemma_dec_digits_digits(n / 10);
        assert forall|i: int| 0 <= i < dec_digits(n).len() implies is_digit_char(
            #[trigger] dec_digits(n)[i],
        ) by {
            if i < dec_digits(n).len() - 1 {
                assert(dec_digits(n)[i] == dec_digits(n / 10)[i]);
            } else {
                assert(dec_digits(n)[i] == ((0x30 + n % 10) as u32) as char);
            }
        }
    }
}

/// Reading the decimal digits of a number back gives the number.
pub proof fn lemma_dec_digits_value(n: int)
    requires
        n >= 0,
    ensures
        dec_val(dec_digits(n)) == n,
    decreases n,
{
    if n < 10 {
        let c = ((0x30 + n) as u32) as char;
        assert(dec_digits(n) =~= seq![c]);
        assert(dec_digits(n).drop_last() =~= Seq::<char>::empty());
        assert(dec_val(dec_digits(n)) == dec_val(Seq::<char>::empty()) * 10 + digit_val(c));
        assert(c as u32 == 0x30 + n);
    } else {
        lemma_dec_digits_value(n / 10);
        assert(dec_digits(n).drop_last() =~= dec_digits(n / 10));
        let c = ((0x30 + n % 10) as u32) as char;
        assert(dec_digits(n).last() == c);
        assert(c as u32 == 0x30 + n % 10);
        assert(dec_val(dec_digits(n)) == (n / 10) * 10 + (n % 10));
    }
}

/// A digit span closed by a non-digit pins the run length.
pub proof fn lemma_digit_run_is(s: Seq<char>, a: int, b: int)
    requires
        0 <= a <= b <= s.len(),
        forall|j: int| a <= j < b ==> is_digit_char(#[trigger] s[j]),
        b < s.len() ==> !is_digit_char(s[b]),
    ensures
        digit_run(s, a) == b - a,
    decreases b - a,
{
    if a < b {
        lemma_digit_run_is(s, a + 1, b);
    }
}

/// Trimming a trimmed text with one trailing blank gives the text back.
pub proof fn lemma_trim_trailing_blank(s: Seq<char>)
    requires
        is_trimmed(s),
        s.len() > 0,
    ensures
        trim_spec(s.push(' ')) == s,
{
    let t = s.push(' ');
    lemma_leading_white_is(t, 0);
    assert(t.drop_last() =~= s);
    lemma_trailing_white_is(t, 1);
    assert(trim_spec(t) =~= s);
}

// ------------------------------------------------------------------------
// Searching
// ------------------------------------------------------------------------

/// Whether `pat` occurs in `s` starting at `i`.
pub open spec fn occurs_at(s: Seq<char>, pat: Seq<char>, i: int) -> bool {
    0 <= i && i + pat.len() <= s.len() && s.subrange(i, i + pat.len()) == pat
}

/// Finds the first occurrence of the two-character pattern `a b` in `v`.
pub fn find_pair(v: &Vec<char>, a: char, b: char) -> (r: Option<usize>)
    ensures
        match r {
            Some(i) => i + 2 <= v@.len() && occurs_at(v@, seq![a, b], i as int) && forall|j: int|
                0 <= j < i ==> !occurs_at(v@, seq![a, b], j),
            None => forall|j: int| !occurs_at(v@, seq![a, b], j),
        },
{
    let n = v.len();
    if n < 1 {
        assert(forall|j: int| !occurs_at(v@, seq![a, b], j));
        return None;
    }
    let mut i: usize = 0;
    while i + 1 < n
        invariant
            n == v@.len(),
            n >= 1,
            i < n,
            forall|j: int| 0 <= j < i ==> !occurs_at(v@, seq![a, b], j),
        decreases n - i,
    {
        if v[i] == a && v[i + 1] == b {
            proof {
                assert(v@.subrange(i as int, i + 2) =~= seq![a, b]);
            }
            return Some(i);
        }
        proof {
            if occurs_at(v@, seq![a, b], i as int) {
                assert(v@.subrange(i as int, i + 2)[0] == v@[i as int]);
                assert(v@.subrange(i as int, i + 2)[1] == v@[i + 1]);
            }
        }
        i = i + 1;
    }
    proof {
        assert forall|j: int| !occurs_at(v@, seq![a, b], j) by {
            if 0 <= j < i {
            } else if occurs_at(v@, seq![a, b], j) {
                assert(j + 2 <= v@.len());
                assert(j < i);
            }
        }
    }
    None
}

// ------------------------------------------------------------------------
// Sorted insertion
// ------------------------------------------------------------------------

/// Whether a sequence is strictly increasing.
pub open spec fn sorted_strict_u32(s: Seq<u32>) -> bool {
    forall|i: int, j: int| 0 <= i < j < s.len() ==> s[i] < s[j]
}

/// Whether a sequence is strictly increasing.
pub open spec fn sorted_strict_usize(s: Seq<usize>) -> bool {
    forall|i: int, j: int| 0 <= i < j < s.len() ==> s[i] < s[j]
}

/// Inserts a value into a strictly sorted vector, keeping it sorted and
/// duplicate-free.
#[verifier::rlimit(30)]
pub fn insert_sorted_u32(v: &mut Vec<u32>, x: u32)
    requires
        sorted_strict_u32(old(v)@),
    ensures
        sorted_strict_u32(final(v)@),
        final(v)@.to_set() == old(v)@.to_set().insert(x),
{
    let mut i: usize = 0;
    while i < v.len() && v[i] < x
        invariant
            i <= v@.len(),
            sorted_strict_u32(v@),
            v@ == old(v)@,
            forall|j: int| 0 <= j < i ==> v@[j] < x,
        decreases v@.len() - i,
    {
        i = i + 1;
    }
    if i < v.len() && v[i] == x {
        proof {
            assert(v@.to_set() =~= old(v)@.to_set().insert(x)) by {
                assert(v@.to_set().contains(x)) by {
                    assert(v@[i as int] == x);
                }
            }
        }
        return;
    }
    proof {
        // at this point every element before i is below x and, when i is in
        // range, the element at i is above x
        assert(i < v@.len() ==> v@[i as int] > x);
    }
    let ghost ov = v@;
    v.insert(i, x);
    proof {
        ov.insert_ensures(i as int, x);
        assert forall|p: int, q: int| 0 <= p < q < v@.len() implies v@[p] < v@[q] by {
            if q < i {
                assert(v@[p] == ov[p] && v@[q] == ov[q]);
            } else if p > i {
                assert(v@[p] == ov[p - 1] && v@[q] == ov[q - 1]);
            } else if p < i && q == i {
                assert(v@[p] == ov[p] && v@[q] == x);
            } else if p == i {
                assert(v@[p] == x && v@[q] == ov[q - 1]);
                assert(q - 1 == i || ov[i as int] < ov[q - 1]);
            } else {
                assert(v@[p] == ov[p] && v@[q] == ov[q - 1]);
                assert(ov[p] < x);
                assert(q - 1 == i || ov[i as int] < ov[q - 1]);
            }
        }
        assert(v@.to_set() =~= ov.to_set().insert(x)) by {
            assert forall|y: u32| v@.to_set().contains(y) implies ov.to_set().insert(
                x,
            ).contains(y) by {
                let j = choose|j: int| 0 <= j < v@.len() && v@[j] == y;
                if j < i {
                    assert(ov[j] == y);
                } else if j > i {
                    assert(ov[j - 1] == y);
                }
            }
            assert forall|y: u32| ov.to_set().insert(x).contains(y) implies v@.to_set()
                .contains(y) by {
                if y == x {
                    assert(v@[i as int] == y);
                } else {
                    let j = choose|j: int| 0 <= j < ov.len() && ov[j] == y;
                    if j < i {
                        assert(v@[j] == y);
                    } else {
                        assert(v@[j + 1] == y);
                    }
                }
            }
        }
    }
}

/// Inserts a value into a strictly sorted vector, keeping it sorted and
/// duplicate-free.
#[verifier::rlimit(30)]
pub fn insert_sorted_usize(v: &mut Vec<usize>, x: usize)
    requires
        sorted_strict_usize(old(v)@),
    ensures
        sorted_strict_usize(final(v)@),
        final(v)@.to_set() == old(v)@.to_set().insert(x),
{
    let mut i: usize = 0;
    while i < v.len() && v[i] < x
        invariant
            i <= v@.len(),
            sorted_strict_usize(v@),
            v@ == old(v)@,
            forall|j: int| 0 <= j < i ==> v@[j] < x,
        decreases v@.len() - i,
    {
        i = i + 1;
    }
    if i < v.len() && v[i] == x {
        proof {
            assert(v@.to_set() =~= old(v)@.to_set().insert(x)) by {
                assert(v@.to_set().contains(x)) by {
                    assert(v@[i as int] == x);
                }
            }
        }
        return;
    }
    proof {
        // at this point every element before i is below x and, when i is in
        // range, the element at i is above x
        assert(i < v@.len() ==> v@[i as int] > x);
    }
    let ghost ov = v@;
    v.insert(i, x);
    proof {
        ov.insert_ensures(i as int, x);
        assert forall|p: int, q: int| 0 <= p < q < v@.len() implies v@[p] < v@[q] by {
            if q < i {
                assert(v@[p] == ov[p] && v@[q] == ov[q]);
            } else if p > i {
                assert(v@[p] == ov[p - 1] && v@[q] == ov[q - 1]);
            } else if p < i && q == i {
                assert(v@[p] == ov[p] && v@[q] == x);
            } else if p == i {
                assert(v@[p] == x && v@[q] == ov[q - 1]);
                assert(q - 1 == i || ov[i as int] < ov[q - 1]);
            } else {
                assert(v@[p] == ov[p] && v@[q] == ov[q - 1]);
                assert(ov[p] < x);
                assert(q - 1 == i || ov[i as int] < ov[q - 1]);
            }
        }
        assert(v@.to_set() =~= ov.to_set().insert(x)) by {
            assert forall|y: usize| v@.to_set().contains(y) implies ov.to_set().insert(
                x,
            ).contains(y) by {
                let j = choose|j: int| 0 <= j < v@.len() && v@[j] == y;
                if j < i {
                    assert(ov[j] == y);
                } else if j > i {
                    assert(ov[j - 1] == y);
                }
            }
            assert forall|y: usize| ov.to_set().insert(x).contains(y) implies v@.to_set()
                .contains(y) by {
                if y == x {
                    assert(v@[i as int] == y);
                } else {
                    let j = choose|j: int| 0 <= j < ov.len() && ov[j] == y;
                    if j < i {
                        assert(v@[j] == y);
                    } else {
                        assert(v@[j + 1] == y);
                    }
                }
            }
        }
    }
}

} // verus!
