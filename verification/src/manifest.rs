//! Manifest rewriting: updating version literals in TOML and JSON
//! manifest texts while leaving every other character untouched.

use vstd::prelude::*;

use crate::text::{
    chars_to_string, copy_range, leading_white, str_chars, trailing_white, trim_range, trim_spec,
};
use crate::trailers::next_nl;
use crate::version::{version_text, Version};
use crate::workspace::Versions;

verus! {

// ------------------------------------------------------------------------
// Lines
// ------------------------------------------------------------------------

/// The lines of a text, split on `\n`, from position `i` on.
pub open spec fn lines_of(s: Seq<char>, i: int) -> Seq<Seq<char>>
    decreases s.len() - i when 0 <= i <= s.len() via lines_of_dec
{
    let brk = next_nl(s, i);
    if brk >= s.len() {
        seq![s.subrange(i, s.len() as int)]
    } else {
        seq![s.subrange(i, brk)] + lines_of(s, brk + 1)
    }
}

#[via_fn]
proof fn lines_of_dec(s: Seq<char>, i: int) {
    crate::trailers::lemma_next_nl(s, i);
}

/// The text of a line list joined with line feeds, from `idx` on.
pub open spec fn unsplit(lines: Seq<Seq<char>>, idx: int) -> Seq<char>
    decreases lines.len() - idx when 0 <= idx
{
    if idx >= lines.len() {
        Seq::empty()
    } else if idx == lines.len() - 1 {
        lines[idx]
    } else {
        lines[idx] + seq!['\n'] + unsplit(lines, idx + 1)
    }
}

/// Splits `v[i..]` into its lines.
fn split_rec(v: &Vec<char>, i: usize) -> (r: Vec<Vec<char>>)
    requires
        i <= v@.len(),
    ensures
        crate::change::segs_of(r@) == lines_of(v@, i as int),
    decreases v@.len() - i,
{
    let brk = crate::trailers::find_next_nl(v, i);
    if brk >= v.len() {
        let line = copy_range(v, i, v.len());
        let mut out: Vec<Vec<char>> = Vec::new();
        out.push(line);
        proof {
            assert(crate::change::segs_of(out@) =~= lines_of(v@, i as int));
        }
        out
    } else {
        let line = copy_range(v, i, brk);
        let rest = split_rec(v, brk + 1);
        let ghost rest_view = rest@;
        let mut out = rest;
        out.insert(0, line);
        proof {
            rest_view.insert_ensures(0, out@[0]);
            assert(forall|k: int| 1 <= k < out@.len() ==> out@[k] == #[trigger] rest_view[k - 1]);
            assert(crate::change::segs_of(out@) =~= lines_of(v@, i as int)) by {
                assert(forall|k: int| 1 <= k < out@.len()
                    ==> #[trigger] crate::change::segs_of(out@)[k] == crate::change::segs_of(
                    rest_view,
                )[k - 1]);
            }
        }
        out
    }
}

/// Joins lines with line feeds.
fn join_lines(lines: &Vec<Vec<char>>) -> (r: Vec<char>)
    ensures
        r@ == unsplit(crate::change::segs_of(lines@), 0),
{
    let mut out: Vec<char> = Vec::new();
    let mut i: usize = 0;
    while i < lines.len()
        invariant
            i <= lines@.len(),
            i < lines@.len() ==> out@ + unsplit(crate::change::segs_of(lines@), i as int)
                == unsplit(crate::change::segs_of(lines@), 0),
            i == lines@.len() && i > 0 ==> out@ == unsplit(crate::change::segs_of(lines@), 0),
            i == 0 ==> out@ == Seq::<char>::empty(),
        decreases lines@.len() - i,
    {
        crate::change::push_chars(&lines[i], &mut out);
        proof {
            assert(crate::change::segs_of(lines@)[i as int] == lines@[i as int]@);
        }
        if i + 1 < lines.len() {
            out.push('\n');
        }
        i = i + 1;
    }
    proof {
        if lines@.len() == 0 {
            assert(out@ =~= unsplit(crate::change::segs_of(lines@), 0));
        }
    }
    out
}

// ------------------------------------------------------------------------
// Positions
// ------------------------------------------------------------------------

/// The first `=` at or after `i`, or `-1` when there is none.
pub open spec fn first_eq_at(s: Seq<char>, i: int) -> int
    decreases s.len() - i when 0 <= i
{
    if i >= s.len() {
        -1
    } else if s[i] == '=' {
        i
    } else {
        first_eq_at(s, i + 1)
    }
}

/// The first `"` at or after `i`, or `-1` when there is none.
pub open spec fn first_quote_at(s: Seq<char>, i: int) -> int
    decreases s.len() - i when 0 <= i
{
    if i >= s.len() {
        -1
    } else if s[i] == '"' {
        i
    } else {
        first_quote_at(s, i + 1)
    }
}

/// The first occurrence of `pat` at or after `i`, or `-1` when none.
pub open spec fn first_sub_at(s: Seq<char>, pat: Seq<char>, i: int) -> int
    decreases s.len() + 1 - i when 0 <= i
{
    if i + pat.len() > s.len() {
        -1
    } else if s.subrange(i, i + pat.len()) == pat {
        i
    } else {
        first_sub_at(s, pat, i + 1)
    }
}

proof fn lemma_first_eq_at(s: Seq<char>, i: int)
    requires
        0 <= i <= s.len(),
    ensures
        first_eq_at(s, i) == -1 || i <= first_eq_at(s, i) < s.len(),
    decreases s.len() - i,
{
    if i < s.len() && s[i] != '=' {
        lemma_first_eq_at(s, i + 1);
    }
}

proof fn lemma_first_quote_at(s: Seq<char>, i: int)
    requires
        0 <= i <= s.len(),
    ensures
        first_quote_at(s, i) == -1 || i <= first_quote_at(s, i) < s.len(),
    decreases s.len() - i,
{
    if i < s.len() && s[i] != '"' {
        lemma_first_quote_at(s, i + 1);
    }
}

proof fn lemma_first_sub_at(s: Seq<char>, pat: Seq<char>, i: int)
    requires
        0 <= i,
    ensures
        first_sub_at(s, pat, i) == -1 || (i <= first_sub_at(s, pat, i) && first_sub_at(s, pat, i)
            + pat.len() <= s.len()),
    decreases s.len() + 1 - i,
{
    if i + pat.len() <= s.len() && s.subrange(i, i + pat.len()) != pat {
        lemma_first_sub_at(s, pat, i + 1);
    }
}

/// The position of the first `=` of a line, if any.
fn find_eq(v: &Vec<char>) -> (r: Option<usize>)
    ensures
        match r {
            Some(j) => j < v@.len() && first_eq_at(v@, 0) == j,
            None => first_eq_at(v@, 0) == -1,
        },
{
    let mut j: usize = 0;
    while j < v.len()
        invariant
            j <= v@.len(),
            first_eq_at(v@, 0) == first_eq_at(v@, j as int),
        decreases v@.len() - j,
    {
        if v[j] == '=' {
            return Some(j);
        }
        proof {
            assert(first_eq_at(v@, j as int) == first_eq_at(v@, j + 1));
        }
        j = j + 1;
    }
    None
}

/// Finds the first `"` at or after `i`.
fn find_quote(v: &Vec<char>, i: usize) -> (r: Option<usize>)
    requires
        i <= v@.len(),
    ensures
        match r {
            Some(j) => i <= j < v@.len() && v@[j as int] == '"' && first_quote_at(v@, i as int)
                == j,
            None => first_quote_at(v@, i as int) == -1,
        },
{
    let mut j = i;
    while j < v.len()
        invariant
            i <= j <= v@.len(),
            first_quote_at(v@, i as int) == first_quote_at(v@, j as int),
        decreases v@.len() - j,
    {
        if v[j] == '"' {
            return Some(j);
        }
        proof {
            assert(first_quote_at(v@, j as int) == first_quote_at(v@, j + 1));
        }
        j = j + 1;
    }
    None
}

/// Finds the first occurrence of `pat` at or after `i`.
fn find_text(v: &Vec<char>, i: usize, pat: &str) -> (r: Option<usize>)
    requires
        i <= v@.len(),
        pat@.len() >= 1,
    ensures
        match r {
            Some(j) => i <= j && j + pat@.len() <= v@.len() && v@.subrange(
                j as int,
                j + pat@.len(),
            ) == pat@ && first_sub_at(v@, pat@, i as int) == j,
            None => first_sub_at(v@, pat@, i as int) == -1,
        },
{
    let pc = str_chars(pat);
    let mut j = i;
    while j < v.len() && pc.len() <= v.len() - j
        invariant
            pc@ == pat@,
            i <= j <= v@.len(),
            first_sub_at(v@, pat@, i as int) == first_sub_at(v@, pat@, j as int),
        decreases v@.len() - j,
    {
        if crate::change::range_eq_str(v, j, j + pc.len(), pat) {
            return Some(j);
        }
        proof {
            assert(first_sub_at(v@, pat@, j as int) == first_sub_at(v@, pat@, j + 1));
        }
        j = j + 1;
    }
    proof {
        assert(first_sub_at(v@, pat@, j as int) == -1);
    }
    None
}

/// The opening and closing quotes of the next quoted span, or `-1`s.
pub open spec fn quote_span(s: Seq<char>, from: int) -> (int, int) {
    let a = first_quote_at(s, from);
    if a == -1 {
        (-1, -1)
    } else {
        let b = first_quote_at(s, a + 1);
        if b == -1 {
            (-1, -1)
        } else {
            (a, b)
        }
    }
}

/// The next quoted span of a line: the opening and closing quotes.
fn quoted_span(v: &Vec<char>, from: usize) -> (r: Option<(usize, usize)>)
    requires
        from <= v@.len(),
    ensures
        match r {
            Some((a, b)) => from <= a && a < b && b < v@.len() && quote_span(v@, from as int) == (
                a as int,
                b as int,
            ),
            None => quote_span(v@, from as int) == (-1int, -1int),
        },
{
    let n = v.len();
    match find_quote(v, from) {
        Some(a) => {
            match find_quote(v, a + 1) {
                Some(b) => Some((a, b)),
                None => None,
            }
        },
        None => None,
    }
}

// ------------------------------------------------------------------------
// Splices
// ------------------------------------------------------------------------

/// The line with `[p, q)` replaced by the version text, caret-prefixed
/// when `caret` holds.
pub open spec fn splice_text(o: Seq<char>, p: int, q: int, v: Version, caret: bool) -> Seq<char> {
    o.subrange(0, p) + (if caret {
        seq!['^']
    } else {
        Seq::<char>::empty()
    }) + version_text(v) + o.subrange(q, o.len() as int)
}

/// Replaces `line[a..b]` with the version text, with an optional caret.
fn splice_version(line: &Vec<char>, a: usize, b: usize, version: &Version, caret: bool) -> (r: Vec<
    char,
>)
    requires
        a <= b <= line@.len(),
    ensures
        r@ == splice_text(line@, a as int, b as int, *version, caret),
{
    let mut out = copy_range(line, 0, a);
    if caret {
        out.push('^');
    }
    let vt = version.to_chars();
    crate::change::push_chars(&vt, &mut out);
    let tail = copy_range(line, b, line.len());
    crate::change::push_chars(&tail, &mut out);
    proof {
        assert(out@ =~= splice_text(line@, a as int, b as int, *version, caret));
    }
    out
}

// ------------------------------------------------------------------------
// Keys and headers
// ------------------------------------------------------------------------

/// A trimmed text with one surrounding pair of quotes removed.
pub open spec fn unquoted_trim(t: Seq<char>) -> Seq<char> {
    let tt = trim_spec(t);
    if tt.len() >= 2 && tt[0] == '"' && tt.last() == '"' {
        tt.subrange(1, tt.len() - 1)
    } else {
        tt
    }
}

/// The key of a TOML line: the text before its first `=`, trimmed and
/// unquoted.
pub open spec fn toml_key(line: Seq<char>) -> Seq<char> {
    unquoted_trim(line.subrange(0, first_eq_at(line, 0)))
}

/// Whether `v[lo..hi]`, whitespace-trimmed and unquoted, equals `w`.
fn trimmed_key_is(v: &Vec<char>, lo: usize, hi: usize, w: &str) -> (r: bool)
    requires
        lo <= hi <= v@.len(),
    ensures
        r == (unquoted_trim(v@.subrange(lo as int, hi as int)) == w@),
{
    let ghost t = v@.subrange(lo as int, hi as int);
    let (a, b) = trim_range(v, lo, hi);
    let ghost tt = trim_spec(t);
    proof {
        assert(v@.subrange(a as int, b as int) == tt);
    }
    if b - a >= 2 && v[a] == '"' && v[b - 1] == '"' {
        proof {
            assert(tt[0] == v@[a as int] && tt.last() == v@[b - 1]);
            assert(v@.subrange(a + 1, b - 1) =~= tt.subrange(1, tt.len() - 1));
        }
        return crate::change::range_eq_str(v, a + 1, b - 1, w);
    }
    proof {
        if tt.len() >= 2 {
            assert(tt[0] == v@[a as int] && tt.last() == v@[b - 1]);
        }
        assert(unquoted_trim(t) == tt);
    }
    crate::change::range_eq_str(v, a, b, w)
}

/// The bounds of the trimmed line.
pub open spec fn trim_lo(line: Seq<char>) -> int {
    leading_white(line) as int
}

/// The end of the trimmed line.
pub open spec fn trim_hi(line: Seq<char>) -> int {
    line.len() - trailing_white(line)
}

/// Whether a line is a section header, with at least `[]` after trimming.
pub open spec fn is_header(line: Seq<char>) -> bool {
    &&& trim_lo(line) < line.len()
    &&& line[trim_lo(line)] == '['
    &&& line[trim_hi(line) - 1] == ']'
    &&& trim_lo(line) + 1 <= trim_hi(line) - 1
}

/// Whether the trimmed line is a section header, yielding its inner span.
fn header_inner(v: &Vec<char>) -> (r: Option<(usize, usize)>)
    ensures
        match r {
            Some((a, b)) => is_header(v@) && a as int == trim_lo(v@) + 1 && b as int == trim_hi(v@)
                - 1 && a <= b <= v@.len(),
            None => !is_header(v@),
        },
{
    let ghost t = trim_spec(v@);
    let (a, b) = trim_range(v, 0, v.len());
    proof {
        assert(v@.subrange(0, v@.len() as int) =~= v@);
        crate::text::lemma_leading_white(v@);
        crate::text::lemma_trailing_white(v@);
    }
    if b > a && v[a] == '[' && v[b - 1] == ']' {
        if a + 1 <= b - 1 {
            proof {
                assert(leading_white(v@) < v@.len());
                assert(a as int == trim_lo(v@) && b as int == trim_hi(v@));
            }
            return Some((a + 1, b - 1));
        }
    }
    proof {
        if is_header(v@) {
            assert(leading_white(v@) < v@.len());
            assert(a as int == trim_lo(v@) && b as int == trim_hi(v@));
            assert(b > a && v@[a as int] == '[' && v@[b - 1] == ']');
        }
    }
    None
}

// ------------------------------------------------------------------------
// The Cargo rewriter
// ------------------------------------------------------------------------

/// The sections a Cargo manifest line can stand in.
pub enum TomlSection {
    /// Inside `[package]`.
    Package,
    /// Inside `[dependencies]`, `[dev-dependencies]` or
    /// `[workspace.dependencies]`.
    Deps,
    /// Inside `[dependencies.<name>]` or a similar per-dependency table,
    /// holding the dependency name.
    DepTable(Vec<char>),
    /// Anywhere else.
    Other,
}

/// The spec-level image of a section state.
pub ghost enum SectionModel {
    /// Inside `[package]`.
    Package,
    /// Inside a dependency section.
    Deps,
    /// Inside a per-dependency table, holding the dependency name.
    DepTable(Seq<char>),
    /// Anywhere else.
    Other,
}

impl TomlSection {
    /// The spec-level image of this state.
    pub open spec fn model(&self) -> SectionModel {
        match self {
            TomlSection::Package => SectionModel::Package,
            TomlSection::Deps => SectionModel::Deps,
            TomlSection::DepTable(n) => SectionModel::DepTable(n@),
            TomlSection::Other => SectionModel::Other,
        }
    }
}

/// The section state after reading one line.
pub open spec fn next_section(st: SectionModel, line: Seq<char>) -> SectionModel {
    if is_header(line) {
        let h = line.subrange(trim_lo(line) + 1, trim_hi(line) - 1);
        if h == "package"@ {
            SectionModel::Package
        } else if h == "dependencies"@ || h == "dev-dependencies"@ || h
            == "workspace.dependencies"@ {
            SectionModel::Deps
        } else {
            let dp = first_sub_at(line, "dependencies."@, trim_lo(line) + 1);
            if dp >= 0 && trim_hi(line) - 1 >= 13 && dp <= trim_hi(line) - 1 - 13 {
                SectionModel::DepTable(line.subrange(dp + 13, trim_hi(line) - 1))
            } else {
                SectionModel::Other
            }
        }
    } else {
        st
    }
}

/// The section state before line `k`.
pub open spec fn section_at(lines: Seq<Seq<char>>, k: int) -> SectionModel
    decreases k when k >= 0
{
    if k <= 0 {
        SectionModel::Other
    } else {
        next_section(section_at(lines, k - 1), lines[k - 1])
    }
}

/// The index of the first entry with the given name, or `-1`.
pub open spec fn vm_index(vm: Seq<(String, Version)>, name: Seq<char>, k: int) -> int
    decreases vm.len() - k when 0 <= k
{
    if k >= vm.len() {
        -1
    } else if vm[k].0@ == name {
        k
    } else {
        vm_index(vm, name, k + 1)
    }
}

proof fn lemma_vm_index(vm: Seq<(String, Version)>, name: Seq<char>, k: int)
    requires
        0 <= k <= vm.len(),
    ensures
        vm_index(vm, name, k) == -1 || k <= vm_index(vm, name, k) < vm.len(),
    decreases vm.len() - k,
{
    if k < vm.len() && vm[k].0@ != name {
        lemma_vm_index(vm, name, k + 1);
    }
}

/// The rewritten value of a dependency line: a `workspace = true` inline
/// table stays; otherwise the `version` string of an inline table, or the
/// plain string value, is replaced by the new version.
pub open spec fn dep_line_out(line: Seq<char>, vm: Seq<(String, Version)>, e: int) -> Seq<char> {
    let eq = first_eq_at(line, 0);
    if first_sub_at(line, "{"@, eq) >= 0 {
        if first_sub_at(line, "workspace"@, eq) >= 0 && first_sub_at(
            line,
            "true"@,
            first_sub_at(line, "workspace"@, eq),
        ) >= 0 {
            line
        } else {
            let vp = first_sub_at(line, "version"@, eq);
            if vp >= 0 {
                let (a, b) = quote_span(line, vp);
                if a >= 0 {
                    splice_text(line, a + 1, b, vm[e].1, false)
                } else {
                    line
                }
            } else {
                line
            }
        }
    } else {
        let (a, b) = quote_span(line, eq);
        if a >= 0 {
            splice_text(line, a + 1, b, vm[e].1, false)
        } else {
            line
        }
    }
}

/// The quoted value of a line replaced by the version of entry `e`, when
/// a quoted span follows position `from`.
pub open spec fn value_out(
    line: Seq<char>,
    from: int,
    vm: Seq<(String, Version)>,
    e: int,
    caret: bool,
) -> Seq<char> {
    let (a, b) = quote_span(line, from);
    if a >= 0 {
        splice_text(line, a + 1, b, vm[e].1, caret)
    } else {
        line
    }
}

/// One line of the rewritten Cargo manifest: inside `[package]` the
/// `version` line gets the package's new version; inside a dependency
/// section, a line whose key is in the set has its version replaced
/// unless it inherits `workspace = true`; every other line stays.
pub open spec fn cargo_line_out(
    line: Seq<char>,
    st: SectionModel,
    pkg: Option<int>,
    vm: Seq<(String, Version)>,
) -> Seq<char> {
    if is_header(line) {
        line
    } else if first_eq_at(line, 0) == -1 {
        line
    } else {
        match st {
            SectionModel::Package => match pkg {
                Some(e) => if toml_key(line) == "version"@ {
                    value_out(line, first_eq_at(line, 0), vm, e, false)
                } else {
                    line
                },
                None => line,
            },
            SectionModel::Deps => {
                let e = vm_index(vm, toml_key(line), 0);
                if e >= 0 {
                    dep_line_out(line, vm, e)
                } else {
                    line
                }
            },
            SectionModel::DepTable(name) => {
                let e = vm_index(vm, name, 0);
                if e >= 0 && toml_key(line) == "version"@ {
                    value_out(line, first_eq_at(line, 0), vm, e, false)
                } else {
                    line
                }
            },
            SectionModel::Other => line,
        }
    }
}

/// The rewritten lines of a Cargo manifest, first `k` of them.
pub open spec fn cargo_lines_out(
    lines: Seq<Seq<char>>,
    pkg: Option<int>,
    vm: Seq<(String, Version)>,
    k: int,
) -> Seq<Seq<char>>
    decreases k when k >= 0
{
    if k <= 0 {
        Seq::empty()
    } else {
        cargo_lines_out(lines, pkg, vm, k - 1).push(
            cargo_line_out(lines[k - 1], section_at(lines, k - 1), pkg, vm),
        )
    }
}

/// One step of the package-name scan: inside `[package]`, a `name` line
/// with a quoted value resolves the package in the version set.
pub open spec fn pkg_step(
    line: Seq<char>,
    st: (bool, Option<int>),
    vm: Seq<(String, Version)>,
) -> (bool, Option<int>) {
    if is_header(line) {
        (line.subrange(trim_lo(line) + 1, trim_hi(line) - 1) == "package"@, st.1)
    } else if st.0 && first_eq_at(line, 0) >= 0 && toml_key(line) == "name"@ {
        let (a, b) = quote_span(line, first_eq_at(line, 0));
        if a >= 0 {
            let e = vm_index(vm, line.subrange(a + 1, b), 0);
            (
                st.0,
                if e >= 0 {
                    Some(e)
                } else {
                    None
                },
            )
        } else {
            st
        }
    } else {
        st
    }
}

/// The package-name scan over the first `k` lines.
pub open spec fn pkg_scan(lines: Seq<Seq<char>>, vm: Seq<(String, Version)>, k: int) -> (
    bool,
    Option<int>,
)
    decreases k when k >= 0
{
    if k <= 0 {
        (false, None)
    } else {
        pkg_step(lines[k - 1], pkg_scan(lines, vm, k - 1), vm)
    }
}

/// Rewrites one dependency value line, as `dep_line_out` states it; `None`
/// means the line stays.
fn rewrite_dep_value(line: &Vec<char>, eq: usize, versions: &Versions, e: usize) -> (r: Option<
    Vec<char>,
>)
    requires
        eq < line@.len(),
        first_eq_at(line@, 0) == eq,
        e < versions.items@.len(),
    ensures
        (match r {
            Some(n) => n@,
            None => line@,
        }) == dep_line_out(line@, versions.items@, e as int),
{
    proof {
        reveal_strlit("{");
        reveal_strlit("workspace");
        reveal_strlit("true");
        reveal_strlit("version");
    }
    let brace = find_text(line, eq, "{");
    match brace {
        Some(_) => {
            // an inline table: leave workspace-inherited entries alone
            match find_text(line, eq, "workspace") {
                Some(w) => {
                    match find_text(line, w, "true") {
                        Some(_) => {
                            return None;
                        },
                        None => {},
                    }
                },
                None => {},
            }
            match find_text(line, eq, "version") {
                Some(vp) => {
                    match quoted_span(line, vp) {
                        Some((a, b)) => Some(
                            splice_version(line, a + 1, b, &versions.items[e].1, false),
                        ),
                        None => None,
                    }
                },
                None => None,
            }
        },
        None => {
            // a plain string value
            match quoted_span(line, eq) {
                Some((a, b)) => Some(splice_version(line, a + 1, b, &versions.items[e].1, false)),
                None => None,
            }
        },
    }
}

impl Versions {
    /// The index of the first entry whose name is `v[lo..hi]`, as
    /// `vm_index` finds it.
    fn get_with_index(&self, v: &Vec<char>, lo: usize, hi: usize) -> (r: Option<usize>)
        requires
            lo <= hi <= v@.len(),
        ensures
            match r {
                Some(e) => e < self.items@.len() && vm_index(
                    self.items@,
                    v@.subrange(lo as int, hi as int),
                    0,
                ) == e,
                None => vm_index(self.items@, v@.subrange(lo as int, hi as int), 0) == -1,
            },
    {
        let ghost name = v@.subrange(lo as int, hi as int);
        let mut k: usize = 0;
        while k < self.items.len()
            invariant
                lo <= hi <= v@.len(),
                k <= self.items@.len(),
                name == v@.subrange(lo as int, hi as int),
                vm_index(self.items@, name, 0) == vm_index(self.items@, name, k as int),
            decreases self.items@.len() - k,
        {
            if crate::change::range_eq_str(v, lo, hi, self.items[k].0.as_str()) {
                proof {
                    assert(self.items@[k as int].0@ == name);
                }
                return Some(k);
            }
            proof {
                assert(self.items@[k as int].0@ != name);
                assert(vm_index(self.items@, name, k as int) == vm_index(
                    self.items@,
                    name,
                    k + 1,
                ));
            }
            k = k + 1;
        }
        None
    }

    /// Rewrites a Cargo manifest, line by line: when `[package].name` is
    /// in the set, the `version` line of `[package]` has its quoted value
    /// replaced by the package's new version; every line of a dependency
    /// section whose key is in the set has its version replaced, except
    /// entries inheriting `workspace = true`; every other line is kept as
    /// it is. The result is exactly `cargo_lines_out` over the input
    /// lines, joined back with line feeds.
    #[verifier::rlimit(100)]
    pub fn update_cargo(&self, content: &str) -> (r: String)
        ensures
            ({
                let lines = lines_of(content@, 0);
                r@ == unsplit(
                    cargo_lines_out(
                        lines,
                        pkg_scan(lines, self.items@, lines.len() as int).1,
                        self.items@,
                        lines.len() as int,
                    ),
                    0,
                )
            }),
    {
        let v = str_chars(content);
        let lines = split_rec(&v, 0);
        let ghost lv = crate::change::segs_of(lines@);
        // first pass: resolve the [package] name in the set
        let mut pkg: Option<usize> = None;
        let mut in_package: bool = false;
        let mut i: usize = 0;
        while i < lines.len()
            invariant
                lv == crate::change::segs_of(lines@),
                i <= lines@.len(),
                in_package == pkg_scan(lv, self.items@, i as int).0,
                (match pkg {
                    Some(e) => e < self.items@.len() && pkg_scan(lv, self.items@, i as int).1
                        == Some(e as int),
                    None => pkg_scan(lv, self.items@, i as int).1 is None,
                }),
            decreases lines@.len() - i,
        {
            let line = &lines[i];
            proof {
                assert(lv[i as int] == line@);
            }
            match header_inner(line) {
                Some((a, b)) => {
                    in_package = crate::change::range_eq_str(line, a, b, "package");
                },
                None => {
                    if in_package {
                        match find_eq(line) {
                            Some(eq) => {
                                if trimmed_key_is(line, 0, eq, "name") {
                                    proof {
                                        assert(line@.subrange(0, eq as int) =~= line@.subrange(
                                            0,
                                            first_eq_at(line@, 0),
                                        ));
                                    }
                                    match quoted_span(line, eq) {
                                        Some((a, b)) => {
                                            pkg = self.get_with_index(line, a + 1, b);
                                            proof {
                                                lemma_vm_index(
                                                    self.items@,
                                                    line@.subrange(a + 1, b as int),
                                                    0,
                                                );
                                            }
                                        },
                                        None => {},
                                    }
                                }
                            },
                            None => {},
                        }
                    }
                },
            }
            i = i + 1;
        }
        // second pass: rewrite line by line
        let ghost pkg_spec = pkg_scan(lv, self.items@, lv.len() as int).1;
        let mut out: Vec<Vec<char>> = Vec::new();
        let mut section = TomlSection::Other;
        let mut i: usize = 0;
        while i < lines.len()
            invariant
                lv == crate::change::segs_of(lines@),
                i <= lines@.len(),
                out@.len() == i,
                (match pkg {
                    Some(e) => e < self.items@.len() && pkg_spec == Some(e as int),
                    None => pkg_spec is None,
                }),
                pkg_spec == pkg_scan(lv, self.items@, lv.len() as int).1,
                section.model() == section_at(lv, i as int),
                crate::change::segs_of(out@) == cargo_lines_out(lv, pkg_spec, self.items@, i as int),
            decreases lines@.len() - i,
        {
            let line = &lines[i];
            proof {
                assert(lv[i as int] == line@);
            }
            let mut replacement: Option<Vec<char>> = None;
            match header_inner(line) {
                Some((a, b)) => {
                    proof {
                        assert(line@.subrange(a as int, b as int) =~= line@.subrange(
                            trim_lo(line@) + 1,
                            trim_hi(line@) - 1,
                        ));
                    }
                    if crate::change::range_eq_str(line, a, b, "package") {
                        section = TomlSection::Package;
                    } else if crate::change::range_eq_str(line, a, b, "dependencies")
                        || crate::change::range_eq_str(line, a, b, "dev-dependencies")
                        || crate::change::range_eq_str(line, a, b, "workspace.dependencies") {
                        section = TomlSection::Deps;
                    } else {
                        let mut table_dep: Option<Vec<char>> = None;
                        proof {
                            reveal_strlit("dependencies.");
                        }
                        match find_text(line, a, "dependencies.") {
                            Some(dp) => {
                                proof {
                                    reveal_strlit("dependencies.");
                                }
                                if b >= 13 && dp <= b - 13 {
                                    let name_start = dp + 13;
                                    table_dep = Some(copy_range(line, name_start, b));
                                }
                            },
                            None => {
                                proof {
                                    reveal_strlit("dependencies.");
                                }
                            },
                        }
                        match table_dep {
                            Some(name) => {
                                section = TomlSection::DepTable(name);
                            },
                            None => {
                                section = TomlSection::Other;
                            },
                        }
                    }
                },
                None => {
                    match find_eq(line) {
                        Some(eq) => {
                            proof {
                                assert(line@.subrange(0, eq as int) =~= line@.subrange(
                                    0,
                                    first_eq_at(line@, 0),
                                ));
                            }
                            match &section {
                                TomlSection::Package => {
                                    match pkg {
                                        Some(e) => {
                                            if trimmed_key_is(line, 0, eq, "version") {
                                                match quoted_span(line, eq) {
                                                    Some((a, b)) => {
                                                        replacement = Some(
                                                            splice_version(
                                                                line,
                                                                a + 1,
                                                                b,
                                                                &self.items[e].1,
                                                                false,
                                                            ),
                                                        );
                                                    },
                                                    None => {},
                                                }
                                            }
                                        },
                                        None => {},
                                    }
                                },
                                TomlSection::Deps => {
                                    let (ka, kb) = trim_range(line, 0, eq);
                                    let key_span: (usize, usize) = if kb - ka >= 2 && line[ka]
                                        == '"' && line[kb - 1] == '"' {
                                        (ka + 1, kb - 1)
                                    } else {
                                        (ka, kb)
                                    };
                                    proof {
                                        let t = line@.subrange(0, first_eq_at(line@, 0));
                                        assert(line@.subrange(0, eq as int) =~= t);
                                        let tt = trim_spec(t);
                                        assert(line@.subrange(ka as int, kb as int) == tt);
                                        if kb - ka >= 2 && line@[ka as int] == '"' && line@[kb - 1]
                                            == '"' {
                                            assert(tt[0] == line@[ka as int] && tt.last()
                                                == line@[kb - 1]);
                                            assert(line@.subrange(ka + 1, kb - 1)
                                                =~= tt.subrange(1, tt.len() - 1));
                                        } else {
                                            if tt.len() >= 2 {
                                                assert(tt[0] == line@[ka as int] && tt.last()
                                                    == line@[kb - 1]);
                                            }
                                        }
                                        assert(line@.subrange(
                                            key_span.0 as int,
                                            key_span.1 as int,
                                        ) == toml_key(line@));
                                    }
                                    match self.get_with_index(line, key_span.0, key_span.1) {
                                        Some(e) => {
                                            replacement = rewrite_dep_value(line, eq, self, e);
                                        },
                                        None => {},
                                    }
                                },
                                TomlSection::DepTable(name) => {
                                    match self.get_with_index(name, 0, name.len()) {
                                        Some(e) => {
                                            proof {
                                                assert(name@.subrange(0, name@.len() as int)
                                                    =~= name@);
                                            }
                                            if trimmed_key_is(line, 0, eq, "version") {
                                                match quoted_span(line, eq) {
                                                    Some((a, b)) => {
                                                        replacement = Some(
                                                            splice_version(
                                                                line,
                                                                a + 1,
                                                                b,
                                                                &self.items[e].1,
                                                                false,
                                                            ),
                                                        );
                                                    },
                                                    None => {},
                                                }
                                            }
                                        },
                                        None => {
                                            proof {
                                                assert(name@.subrange(0, name@.len() as int)
                                                    =~= name@);
                                            }
                                        },
                                    }
                                },
                                TomlSection::Other => {},
                            }
                        },
                        None => {},
                    }
                },
            }
            let ghost before = out@;
            match replacement {
                Some(n) => {
                    out.push(n);
                },
                None => {
                    out.push(copy_range(line, 0, line.len()));
                    proof {
                        assert(line@.subrange(0, line@.len() as int) =~= line@);
                    }
                },
            }
            proof {
                assert(crate::change::segs_of(out@) =~= crate::change::segs_of(before).push(
                    out@.last()@,
                ));
                assert(out@.last()@ == cargo_line_out(
                    lv[i as int],
                    section_at(lv, i as int),
                    pkg_spec,
                    self.items@,
                ));
            }
            i = i + 1;
        }
        let joined = join_lines(&out);
        chars_to_string(&joined)
    }
}

// ------------------------------------------------------------------------
// The Node rewriter
// ------------------------------------------------------------------------

/// The key of a JSON line: the text of its first quoted span.
pub open spec fn json_key(line: Seq<char>) -> Seq<char> {
    let (a, b) = quote_span(line, 0);
    line.subrange(a + 1, b)
}

/// Whether a JSON line carries a quoted key.
pub open spec fn json_keyed(line: Seq<char>) -> bool {
    quote_span(line, 0).0 >= 0
}

/// Whether a keyed line opens a dependency object.
pub open spec fn json_deps_head(line: Seq<char>) -> bool {
    json_keyed(line) && (json_key(line) == "dependencies"@ || json_key(line)
        == "devDependencies"@)
}

/// Whether the scan is inside a dependency object after one line.
pub open spec fn next_deps(st: bool, line: Seq<char>) -> bool {
    if json_keyed(line) {
        if json_deps_head(line) {
            true
        } else {
            st
        }
    } else {
        if first_sub_at(line, "}"@, 0) >= 0 {
            false
        } else {
            st
        }
    }
}

/// Whether the scan is inside a dependency object before line `k`.
pub open spec fn deps_at(lines: Seq<Seq<char>>, k: int) -> bool
    decreases k when k >= 0
{
    if k <= 0 {
        false
    } else {
        next_deps(deps_at(lines, k - 1), lines[k - 1])
    }
}

/// One step of the top-level name scan: the first `name` line with a
/// quoted value resolves the package in the version set.
pub open spec fn name_step(
    line: Seq<char>,
    acc: Option<int>,
    vm: Seq<(String, Version)>,
) -> Option<int> {
    if acc is None && json_keyed(line) && json_key(line) == "name"@ {
        let (ka, kb) = quote_span(line, 0);
        let (va, vb) = quote_span(line, kb + 1);
        if va >= 0 {
            let e = vm_index(vm, line.subrange(va + 1, vb), 0);
            if e >= 0 {
                Some(e)
            } else {
                None
            }
        } else {
            acc
        }
    } else {
        acc
    }
}

/// The top-level name scan over the first `k` lines.
pub open spec fn name_scan(lines: Seq<Seq<char>>, vm: Seq<(String, Version)>, k: int) -> Option<
    int,
>
    decreases k when k >= 0
{
    if k <= 0 {
        None
    } else {
        name_step(lines[k - 1], name_scan(lines, vm, k - 1), vm)
    }
}

/// One line of the rewritten Node manifest: inside a dependency object a
/// key in the set gets a caret requirement on its new version; at the top
/// level the `version` value becomes the package's new version when the
/// manifest's `name` is in the set; every other line stays.
pub open spec fn node_line_out(
    line: Seq<char>,
    in_deps: bool,
    pkg: Option<int>,
    vm: Seq<(String, Version)>,
) -> Seq<char> {
    if json_keyed(line) {
        let (ka, kb) = quote_span(line, 0);
        if json_deps_head(line) {
            line
        } else if in_deps {
            let e = vm_index(vm, line.subrange(ka + 1, kb), 0);
            if e >= 0 {
                value_out(line, kb + 1, vm, e, true)
            } else {
                line
            }
        } else {
            match pkg {
                Some(e) => if line.subrange(ka + 1, kb) == "version"@ {
                    value_out(line, kb + 1, vm, e, false)
                } else {
                    line
                },
                None => line,
            }
        }
    } else {
        line
    }
}

/// The rewritten lines of a Node manifest, first `k` of them.
pub open spec fn node_lines_out(
    lines: Seq<Seq<char>>,
    pkg: Option<int>,
    vm: Seq<(String, Version)>,
    k: int,
) -> Seq<Seq<char>>
    decreases k when k >= 0
{
    if k <= 0 {
        Seq::empty()
    } else {
        node_lines_out(lines, pkg, vm, k - 1).push(
            node_line_out(lines[k - 1], deps_at(lines, k - 1), pkg, vm),
        )
    }
}

impl Versions {
    /// Rewrites a Node manifest, line by line: when the top-level `name`
    /// is in the set, the top-level `version` value becomes the package's
    /// new version; every entry of `dependencies` and `devDependencies`
    /// whose key is in the set gets `^` and its new version; every other
    /// line is kept as it is. The result is exactly `node_lines_out` over
    /// the input lines, joined back with line feeds.
    #[verifier::rlimit(100)]
    pub fn update_node(&self, content: &str) -> (r: String)
        ensures
            ({
                let lines = lines_of(content@, 0);
                r@ == unsplit(
                    node_lines_out(
                        lines,
                        name_scan(lines, self.items@, lines.len() as int),
                        self.items@,
                        lines.len() as int,
                    ),
                    0,
                )
            }),
    {
        let v = str_chars(content);
        let lines = split_rec(&v, 0);
        let ghost lv = crate::change::segs_of(lines@);
        // first pass: the top-level package name
        let mut pkg: Option<usize> = None;
        let mut i: usize = 0;
        while i < lines.len()
            invariant
                lv == crate::change::segs_of(lines@),
                i <= lines@.len(),
                (match pkg {
                    Some(e) => e < self.items@.len() && name_scan(lv, self.items@, i as int)
                        == Some(e as int),
                    None => name_scan(lv, self.items@, i as int) is None,
                }),
            decreases lines@.len() - i,
        {
            let line = &lines[i];
            proof {
                assert(lv[i as int] == line@);
            }
            match quoted_span(line, 0) {
                Some((ka, kb)) => {
                    let nlen = line.len();
                    if pkg.is_none() && crate::change::range_eq_str(line, ka + 1, kb, "name") {
                        match quoted_span(line, kb + 1) {
                            Some((va, vb)) => {
                                pkg = self.get_with_index(line, va + 1, vb);
                                proof {
                                    lemma_vm_index(self.items@, line@.subrange(va + 1, vb as int), 0);
                                }
                            },
                            None => {},
                        }
                    }
                },
                None => {},
            }
            i = i + 1;
        }
        // second pass: rewrite line by line
        let ghost pkg_spec = name_scan(lv, self.items@, lv.len() as int);
        let mut out: Vec<Vec<char>> = Vec::new();
        let mut in_deps: bool = false;
        let mut i: usize = 0;
        while i < lines.len()
            invariant
                lv == crate::change::segs_of(lines@),
                i <= lines@.len(),
                out@.len() == i,
                (match pkg {
                    Some(e) => e < self.items@.len() && pkg_spec == Some(e as int),
                    None => pkg_spec is None,
                }),
                pkg_spec == name_scan(lv, self.items@, lv.len() as int),
                in_deps == deps_at(lv, i as int),
                crate::change::segs_of(out@) == node_lines_out(lv, pkg_spec, self.items@, i as int),
            decreases lines@.len() - i,
        {
            let line = &lines[i];
            proof {
                assert(lv[i as int] == line@);
            }
            let mut replacement: Option<Vec<char>> = None;
            match quoted_span(line, 0) {
                Some((ka, kb)) => {
                    let nlen = line.len();
                    let dep_head = crate::change::range_eq_str(line, ka + 1, kb, "dependencies")
                        || crate::change::range_eq_str(line, ka + 1, kb, "devDependencies");
                    if dep_head {
                        in_deps = true;
                    } else if in_deps {
                        match self.get_with_index(line, ka + 1, kb) {
                            Some(e) => {
                                match quoted_span(line, kb + 1) {
                                    Some((va, vb)) => {
                                        replacement = Some(
                                            splice_version(
                                                line,
                                                va + 1,
                                                vb,
                                                &self.items[e].1,
                                                true,
                                            ),
                                        );
                                    },
                                    None => {},
                                }
                            },
                            None => {},
                        }
                    } else {
                        match pkg {
                            Some(e) => {
                                if crate::change::range_eq_str(line, ka + 1, kb, "version") {
                                    match quoted_span(line, kb + 1) {
                                        Some((va, vb)) => {
                                            replacement = Some(
                                                splice_version(
                                                    line,
                                                    va + 1,
                                                    vb,
                                                    &self.items[e].1,
                                                    false,
                                                ),
                                            );
                                        },
                                        None => {},
                                    }
                                }
                            },
                            None => {},
                        }
                    }
                },
                None => {
                    // a closing brace line ends the dependency object
                    proof {
                        reveal_strlit("}");
                    }
                    match find_text(line, 0, "}") {
                        Some(_) => {
                            in_deps = false;
                        },
                        None => {},
                    }
                },
            }
            let ghost before = out@;
            match replacement {
                Some(n) => {
                    out.push(n);
                },
                None => {
                    out.push(copy_range(line, 0, line.len()));
                    proof {
                        assert(line@.subrange(0, line@.len() as int) =~= line@);
                    }
                },
            }
            proof {
                assert(crate::change::segs_of(out@) =~= crate::change::segs_of(before).push(
                    out@.last()@,
                ));
                assert(out@.last()@ == node_line_out(
                    lv[i as int],
                    deps_at(lv, i as int),
                    pkg_spec,
                    self.items@,
                ));
            }
            i = i + 1;
        }
        let joined = join_lines(&out);
        chars_to_string(&joined)
    }
}


} // verus!
