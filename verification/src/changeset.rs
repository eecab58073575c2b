//! Changesets: commits folded into per-scope version increments, with the
//! revision list the changelog is rendered from.

use vstd::prelude::*;

use crate::change::{as_increment_spec, Change};
use crate::scopes::{scopes_wf, ScopeError, Scopes};
use crate::text::{
    copy_range, is_white_char, sorted_strict_u32, sorted_strict_usize, str_chars, trim_range,
    trim_spec, white_char,
};
use crate::trailers::{trim_trailers_end, trimmed_end};
use crate::version::{opt_rank, Increment};
use crate::workspace::Workspace;

verus! {

// ------------------------------------------------------------------------
// Commits
// ------------------------------------------------------------------------

/// A commit as the engine sees it: identifier, summary line, optional
/// body, and the file paths its deltas touch.
#[derive(Debug)]
pub struct Commit {
    /// The full commit identifier.
    pub id: String,
    /// The single-line summary.
    pub summary: String,
    /// The body, when the commit has a nonempty one.
    pub body: Option<String>,
    /// The repository-relative paths its deltas touch.
    pub paths: Vec<String>,
}

impl Commit {
    /// Returns the commit identifier.
    pub fn id(&self) -> (r: &String)
        ensures
            r@ == self.id@,
    {
        &self.id
    }

    /// Returns the short identifier: the first seven characters.
    pub fn short_id(&self) -> (r: String)
        ensures
            r@ == if self.id@.len() <= 7 {
                self.id@
            } else {
                self.id@.subrange(0, 7)
            },
    {
        let c = str_chars(self.id.as_str());
        if c.len() <= 7 {
            proof {
                assert(c@.subrange(0, c@.len() as int) =~= c@);
            }
            let whole = copy_range(&c, 0, c.len());
            crate::text::chars_to_string(&whole)
        } else {
            let head = copy_range(&c, 0, 7);
            crate::text::chars_to_string(&head)
        }
    }

    /// Returns the commit summary line.
    pub fn summary(&self) -> (r: &str)
        ensures
            r@ == self.summary@,
    {
        self.summary.as_str()
    }

    /// Returns the commit body, if any.
    pub fn body(&self) -> (r: Option<&String>)
        ensures
            match r {
                Some(b) => self.body == Some(*b),
                None => self.body is None,
            },
    {
        self.body.as_ref()
    }
}

// ------------------------------------------------------------------------
// Issue extraction
// ------------------------------------------------------------------------

/// The count of leading characters of a token that are neither ASCII
/// digits nor `#`.
pub open spec fn lead_marks(s: Seq<char>, i: int) -> nat
    decreases s.len() - i when 0 <= i <= s.len()
{
    if i < s.len() && !(crate::text::is_digit_char(s[i]) || s[i] == '#') {
        1 + lead_marks(s, i + 1)
    } else {
        0
    }
}

/// The count of trailing characters of a token that are neither ASCII
/// digits nor `#`.
pub open spec fn trail_marks(s: Seq<char>, e: int) -> nat
    decreases e when 0 <= e <= s.len()
{
    if e > 0 && !(crate::text::is_digit_char(s[e - 1]) || s[e - 1] == '#') {
        1 + trail_marks(s, e - 1)
    } else {
        0
    }
}

/// The issue number named by a token, if any: after trimming characters
/// that are neither digits nor `#` from both ends, the token must start
/// with `#` and the rest must read as a 32-bit number, allowing one
/// leading `+`.
pub open spec fn token_issue(t: Seq<char>) -> Option<u32> {
    let a = lead_marks(t, 0) as int;
    if a == t.len() {
        None
    } else {
        let b = t.len() - trail_marks(t, t.len() as int);
        let core = t.subrange(a, b);
        if core.len() > 0 && core[0] == '#' {
            let rest = core.subrange(1, core.len() as int);
            let digits = if rest.len() > 0 && rest[0] == '+' {
                rest.subrange(1, rest.len() as int)
            } else {
                rest
            };
            if digits.len() > 0 && crate::text::all_digits(digits) && crate::text::dec_val(digits)
                <= u32::MAX {
                Some(crate::text::dec_val(digits) as u32)
            } else {
                None
            }
        } else {
            None
        }
    }
}

/// The set of issue numbers named by whitespace-separated tokens from
/// position `i` on.
pub open spec fn issues_from(s: Seq<char>, i: int) -> Set<u32>
    decreases s.len() - i when 0 <= i
{
    if i >= s.len() {
        Set::empty()
    } else if is_white_char(s[i]) {
        issues_from(s, i + 1)
    } else if i == 0 || is_white_char(s[i - 1]) {
        // a token starts here and runs to the next whitespace
        let rest = issues_from(s, i + 1);
        match token_issue(s.subrange(i, i + crate::change::nonwhite_run(s, i))) {
            Some(value) => rest.insert(value),
            None => rest,
        }
    } else {
        issues_from(s, i + 1)
    }
}

/// Reads the issue number named by the token `v[i..e]`.
#[verifier::loop_isolation(false)]
fn token_issue_exec(v: &Vec<char>, i: usize, e: usize) -> (r: Option<u32>)
    requires
        i <= e <= v@.len(),
    ensures
        r == token_issue(v@.subrange(i as int, e as int)),
{
    let ghost t = v@.subrange(i as int, e as int);
    let mut a = i;
    while a < e && !(crate::text::digit_char(v[a]) || v[a] == '#')
        invariant
            i <= a <= e <= v@.len(),
            t == v@.subrange(i as int, e as int),
            lead_marks(t, 0) == (a - i) + lead_marks(t, a - i),
        decreases e - a,
    {
        proof {
            assert(t[a - i] == v@[a as int]);
            assert(lead_marks(t, a - i) == 1 + lead_marks(t, a - i + 1));
        }
        a = a + 1;
    }
    proof {
        if a < e {
            assert(t[a - i] == v@[a as int]);
        }
        assert(lead_marks(t, a - i) == 0);
    }
    if a == e {
        return None;
    }
    let mut b = e;
    while b > a && !(crate::text::digit_char(v[b - 1]) || v[b - 1] == '#')
        invariant
            i <= a < b <= e <= v@.len(),
            a < e,
            crate::text::is_digit_char(v@[a as int]) || v@[a as int] == '#',
            t == v@.subrange(i as int, e as int),
            trail_marks(t, e - i) == (e - b) + trail_marks(t, b - i),
        decreases b,
    {
        proof {
            assert(t[b - 1 - i] == v@[b - 1]);
            assert(trail_marks(t, b - i) == 1 + trail_marks(t, b - i - 1));
        }
        b = b - 1;
    }
    proof {
        assert(t[b - 1 - i] == v@[b - 1]);
        assert(trail_marks(t, b - i) == 0);
    }
    let ghost core = t.subrange(a - i, b - i);
    if v[a] != '#' {
        proof {
            assert(core[0] == v@[a as int]);
        }
        return None;
    }
    proof {
        assert(core[0] == v@[a as int]);
        assert(core.subrange(1, core.len() as int) =~= v@.subrange(a + 1, b as int));
    }
    let mut d = a + 1;
    if d < b && v[d] == '+' {
        proof {
            assert(v@.subrange(a + 1, b as int)[0] == v@[a + 1]);
            assert(v@.subrange(a + 1, b as int).subrange(
                1,
                v@.subrange(a + 1, b as int).len() as int,
            ) =~= v@.subrange(a + 2, b as int));
        }
        d = d + 1;
    } else {
        proof {
            if a + 1 < b {
                assert(v@.subrange(a + 1, b as int)[0] == v@[a + 1]);
            }
        }
    }
    let ghost digits = v@.subrange(d as int, b as int);
    // every character must be a digit
    let mut j = d;
    while j < b
        invariant
            d <= j <= b <= v@.len(),
            digits == v@.subrange(d as int, b as int),
            forall|k: int| 0 <= k < j - d ==> crate::text::is_digit_char(#[trigger] digits[k]),
        decreases b - j,
    {
        if !crate::text::digit_char(v[j]) {
            proof {
                assert(digits[j - d] == v@[j as int]);
            }
            return None;
        }
        proof {
            assert(digits[j - d] == v@[j as int]);
        }
        j = j + 1;
    }
    proof {
        assert(crate::text::all_digits(digits));
    }
    crate::text::parse_dec_u32(v, d, b)
}

/// Collects the issue numbers named in a commit body from position `i`
/// on, in ascending order.
fn issues_rec(v: &Vec<char>, i: usize) -> (r: Vec<u32>)
    requires
        i <= v@.len(),
    ensures
        sorted_strict_u32(r@),
        r@.to_set() == issues_from(v@, i as int),
    decreases v@.len() - i,
{
    if i >= v.len() {
        let out: Vec<u32> = Vec::new();
        proof {
            assert(out@.to_set() =~= issues_from(v@, i as int));
        }
        return out;
    }
    if white_char(v[i]) {
        return issues_rec(v, i + 1);
    }
    let at_start: bool = i == 0 || white_char(v[i - 1]);
    if !at_start {
        return issues_rec(v, i + 1);
    }
    let run = crate::change::nonwhite_run_at(v, i);
    let e = i + run;
    let issue = token_issue_exec(v, i, e);
    let mut rest = issues_rec(v, i + 1);
    match issue {
        Some(value) => {
            crate::text::insert_sorted_u32(&mut rest, value);
            rest
        },
        None => rest,
    }
}

/// Parses the issue numbers named in a commit body, ascending and
/// duplicate-free.
pub fn parse_issues(body: &str) -> (r: Vec<u32>)
    ensures
        sorted_strict_u32(r@),
        r@.to_set() == issues_from(body@, 0),
{
    let v = str_chars(body);
    issues_rec(&v, 0)
}

// ------------------------------------------------------------------------
// Revisions and changesets
// ------------------------------------------------------------------------

/// A revision: a commit with its parsed change, the affected scope
/// indices, and the issues named in the body.
#[derive(Debug)]
pub struct Revision {
    /// The commit.
    pub commit: Commit,
    /// The parsed change.
    pub change: Change,
    /// The affected scope indices, ascending.
    pub scopes: Vec<usize>,
    /// The issues named in the body, ascending.
    pub issues: Vec<u32>,
}

impl Revision {
    /// Returns a reference to the commit.
    pub fn commit(&self) -> (r: &Commit)
        ensures
            *r == self.commit,
    {
        &self.commit
    }

    /// Returns a reference to the parsed change.
    pub fn change(&self) -> (r: &Change)
        ensures
            *r == self.change,
    {
        &self.change
    }

    /// Returns the affected scope indices.
    pub fn scopes(&self) -> (r: &Vec<usize>)
        ensures
            r@ == self.scopes@,
    {
        &self.scopes
    }

    /// Returns the issues named in the body.
    pub fn issues(&self) -> (r: &Vec<u32>)
        ensures
            r@ == self.issues@,
    {
        &self.issues
    }
}

/// Why a changeset operation failed.
#[derive(Clone, Copy, Debug, PartialEq, Eq, Structural)]
pub enum ChangesetError {
    /// A scope could not be added.
    Scopes(ScopeError),
    /// No summary could be extracted.
    Summary,
}

/// Extra scopes handed in by configuration: name and path pairs.
#[derive(Debug)]
pub struct Config {
    /// Pairs of scope name and scope path.
    pub scopes: Vec<(String, String)>,
}

/// The increment a revision calls for.
pub open spec fn rev_inc(r: Revision) -> Option<Increment> {
    as_increment_spec(r.change.kind, r.change.is_breaking)
}

/// The greater of two optional increments.
pub open spec fn opt_max_spec(a: Option<Increment>, b: Option<Increment>) -> Option<Increment> {
    if opt_rank(a) >= opt_rank(b) {
        a
    } else {
        b
    }
}

/// The increment accumulated for scope `i` over a revision list: the
/// maximum increment of the revisions that touch the scope.
pub open spec fn scope_inc(revs: Seq<Revision>, i: int) -> Option<Increment>
    decreases revs.len(),
{
    if revs.len() == 0 {
        None
    } else {
        opt_max_spec(
            scope_inc(revs.drop_last(), i),
            if revs.last().scopes@.contains(i as usize) {
                rev_inc(revs.last())
            } else {
                None
            },
        )
    }
}

/// Whether scope `i` is the deepest match of one of the first `upto`
/// delta paths.
pub open spec fn path_scope(
    entries: Seq<crate::scopes::Scope>,
    paths: Seq<String>,
    upto: int,
    i: usize,
) -> bool {
    exists|k: int|
        #![trigger paths[k]]
        0 <= k < upto && crate::scopes::is_deepest_match(entries, paths[k]@, i as int)
}

/// The issue set of an optional commit body.
pub open spec fn issues_of(body: Option<String>) -> Set<u32> {
    match body {
        Some(b) => issues_from(b@, 0),
        None => Set::empty(),
    }
}

/// Whether a stored revision is exactly what the given commit yields over
/// the given scope set: the commit itself, the parse of its summary, the
/// sorted set of deepest-match scope indices of its delta paths, and the
/// sorted issue set of its body.
pub open spec fn revision_for(
    rev: Revision,
    commit: Commit,
    entries: Seq<crate::scopes::Scope>,
) -> bool {
    &&& rev.commit == commit
    &&& (match crate::change::parse_change(commit.summary@) {
        Ok(m) => rev.change.model() == m && rev.change.wf(),
        Err(_) => false,
    })
    &&& sorted_strict_usize(rev.scopes@)
    &&& forall|i: usize| (#[trigger] rev.scopes@.to_set().contains(i)) <==> path_scope(
        entries,
        commit.paths@,
        commit.paths@.len() as int,
        i,
    )
    &&& sorted_strict_u32(rev.issues@)
    &&& rev.issues@.to_set() == issues_of(commit.body)
}

/// The commits whose summaries parse, among the first `i`, in order.
pub open spec fn accepted_prefix(commits: Seq<Commit>, i: int) -> Seq<Commit>
    decreases i when i >= 0
{
    if i <= 0 {
        Seq::empty()
    } else {
        accepted_prefix(commits, i - 1) + (if crate::change::parse_change(
            commits[i - 1].summary@,
        ) is Ok {
            seq![commits[i - 1]]
        } else {
            Seq::empty()
        })
    }
}

/// Whether a package list is the workspace's package list: name-sorted,
/// each entry reflecting a named project, and covering every named
/// project.
pub open spec fn pkg_props(ps: Seq<crate::workspace::Package>, ws: Workspace) -> bool {
    &&& crate::workspace::names_sorted(ps)
    &&& crate::workspace::pkgs_correspond(ps, ws.projects@)
    &&& crate::workspace::names_covered(ps, ws.projects@, ws.projects@.len() as int)
}

/// The `k`-th scope path the builder receives: the package directories,
/// then the configured paths.
pub open spec fn candidate_path(
    ps: Seq<crate::workspace::Package>,
    cfg: Seq<(String, String)>,
    k: int,
) -> Seq<char> {
    if k < ps.len() {
        ps[k].dir@
    } else {
        cfg[k - ps.len()].1@
    }
}

/// Whether every candidate scope path is relative and the paths are
/// pairwise distinct: exactly when the scope builder accepts them all.
pub open spec fn pairs_ok(ps: Seq<crate::workspace::Package>, cfg: Seq<(String, String)>) -> bool {
    &&& forall|k: int|
        0 <= k < ps.len() + cfg.len() ==> !((#[trigger] candidate_path(ps, cfg, k)).len() > 0
            && candidate_path(ps, cfg, k)[0] == '/')
    &&& forall|k1: int, k2: int|
        #![trigger candidate_path(ps, cfg, k1), candidate_path(ps, cfg, k2)]
        0 <= k1 < k2 < ps.len() + cfg.len() ==> candidate_path(ps, cfg, k1) != candidate_path(
            ps,
            cfg,
            k2,
        )
}

/// Whether a scope set holds one scope per package (its directory and
/// name) and then one per configured pair, in insertion order.
pub open spec fn entries_are(
    entries: Seq<crate::scopes::Scope>,
    ps: Seq<crate::workspace::Package>,
    cfg: Seq<(String, String)>,
) -> bool {
    &&& entries.len() == ps.len() + cfg.len()
    &&& forall|k: int| 0 <= k < ps.len() ==> (#[trigger] entries[k]).path@ == ps[k].dir@
        && entries[k].name@ == ps[k].name@
    &&& forall|k: int|
        ps.len() <= k < entries.len() ==> (#[trigger] entries[k]).path@ == cfg[k - ps.len()].1@
            && entries[k].name@ == cfg[k - ps.len()].0@
}

/// A changeset: a scope set, the accepted revisions, and one increment
/// slot per scope.
#[derive(Debug)]
pub struct Changeset {
    /// The scope set.
    pub scopes: Scopes,
    /// The accepted revisions, in insertion order.
    pub revisions: Vec<Revision>,
    /// One optional increment per scope.
    pub increments: Vec<Option<Increment>>,
}

/// The changeset invariant: one slot per scope, each slot the maximum
/// increment over the revisions touching its scope.
pub open spec fn cs_wf(cs: Changeset) -> bool {
    &&& scopes_wf(cs.scopes.entries@)
    &&& cs.increments@.len() == cs.scopes.entries@.len()
    &&& forall|i: int| 0 <= i < cs.increments@.len() ==> cs.increments@[i] == scope_inc(
        cs.revisions@,
        i,
    )
}

impl Changeset {
    /// Creates a changeset over the packages of a workspace.
    pub fn new(workspace: &Workspace) -> (r: Result<Changeset, ChangesetError>)
        ensures
            match r {
                Ok(cs) => cs_wf(cs) && cs.revisions@.len() == 0 && (forall|i: int|
                    0 <= i < cs.increments@.len() ==> cs.increments@[i] is None) && (exists|
                    ps: Seq<crate::workspace::Package>,
                |
                    #[trigger] pkg_props(ps, *workspace) && entries_are(
                        cs.scopes.entries@,
                        ps,
                        Seq::<(String, String)>::empty(),
                    )),
                Err(e) => e is Scopes && (exists|ps: Seq<crate::workspace::Package>|
                    #[trigger] pkg_props(ps, *workspace) && !pairs_ok(
                        ps,
                        Seq::<(String, String)>::empty(),
                    )),
            },
    {
        let config = Config { scopes: Vec::new() };
        let r = Self::with_config(workspace, &config);
        proof {
            assert(config.scopes@ =~= Seq::<(String, String)>::empty());
        }
        r
    }

    /// Creates a changeset over the packages of a workspace and the extra
    /// scopes of a configuration: one scope per package, then one per
    /// configured pair, with every increment slot unset. Fails exactly
    /// when one of those scope paths is absolute or repeated.
    pub fn with_config(workspace: &Workspace, config: &Config) -> (r: Result<
        Changeset,
        ChangesetError,
    >)
        ensures
            match r {
                Ok(cs) => cs_wf(cs) && cs.revisions@.len() == 0 && (forall|i: int|
                    0 <= i < cs.increments@.len() ==> cs.increments@[i] is None) && (exists|
                    ps: Seq<crate::workspace::Package>,
                |
                    #[trigger] pkg_props(ps, *workspace) && entries_are(
                        cs.scopes.entries@,
                        ps,
                        config.scopes@,
                    )),
                Err(e) => e is Scopes && (exists|ps: Seq<crate::workspace::Package>|
                    #[trigger] pkg_props(ps, *workspace) && !pairs_ok(ps, config.scopes@)),
            },
    {
        let mut builder = Scopes::builder();
        let packages = workspace.packages();
        let ghost psv = packages@;
        let ghost cfgv = config.scopes@;
        proof {
            assert(pkg_props(psv, *workspace));
        }
        let plen = packages.len();
        let mut i: usize = 0;
        while i < plen
            invariant
                plen == psv.len(),
                psv == packages@,
                cfgv == config.scopes@,
                pkg_props(psv, *workspace),
                i <= plen,
                scopes_wf(builder.entries@),
                builder.entries@.len() == i,
                forall|k: int| 0 <= k < i ==> (#[trigger] builder.entries@[k]).path@ == psv[k].dir@
                    && builder.entries@[k].name@ == psv[k].name@,
            decreases plen - i,
        {
            let ghost before = builder.entries@;
            match builder.add(packages[i].dir.as_str(), packages[i].name.as_str()) {
                Ok(()) => {
                    proof {
                        assert(crate::scopes::paths_of(builder.entries@)[i as int]
                            == builder.entries@[i as int].path@);
                        assert(crate::scopes::paths_of(builder.entries@)[i as int] == crate::scopes
                            ::paths_of(before).push(psv[i as int].dir@)[i as int]);
                    }
                },
                Err(e) => {
                    proof {
                        assert(!pairs_ok(psv, cfgv)) by {
                            if e == crate::scopes::ScopeError::PathAbsolute {
                                assert(candidate_path(psv, cfgv, i as int) == psv[i as int].dir@);
                                assert(candidate_path(psv, cfgv, i as int).len() > 0
                                    && candidate_path(psv, cfgv, i as int)[0] == '/');
                            } else {
                                let j = choose|j: int|
                                    0 <= j < before.len() && crate::scopes::paths_of(before)[j]
                                        == psv[i as int].dir@;
                                assert(crate::scopes::paths_of(before)[j] == before[j].path@);
                                assert(candidate_path(psv, cfgv, j) == psv[j].dir@);
                                assert(candidate_path(psv, cfgv, i as int) == psv[i as int].dir@);
                                assert(candidate_path(psv, cfgv, j) == candidate_path(
                                    psv,
                                    cfgv,
                                    i as int,
                                ));
                            }
                        }
                    }
                    return Err(ChangesetError::Scopes(e));
                },
            }
            i = i + 1;
        }
        let clen = config.scopes.len();
        let mut k: usize = 0;
        while k < clen
            invariant
                plen == psv.len(),
                clen == cfgv.len(),
                psv == packages@,
                cfgv == config.scopes@,
                pkg_props(psv, *workspace),
                k <= clen,
                scopes_wf(builder.entries@),
                builder.entries@.len() == plen + k,
                forall|q: int| 0 <= q < plen ==> (#[trigger] builder.entries@[q]).path@
                    == psv[q].dir@ && builder.entries@[q].name@ == psv[q].name@,
                forall|q: int|
                    plen <= q < plen + k ==> (#[trigger] builder.entries@[q]).path@ == cfgv[q
                        - plen].1@ && builder.entries@[q].name@ == cfgv[q - plen].0@,
            decreases clen - k,
        {
            let ghost before = builder.entries@;
            match builder.add(config.scopes[k].1.as_str(), config.scopes[k].0.as_str()) {
                Ok(()) => {
                    proof {
                        assert(crate::scopes::paths_of(builder.entries@)[plen + k]
                            == builder.entries@[plen + k].path@);
                        assert(crate::scopes::paths_of(builder.entries@)[plen + k] == crate::scopes
                            ::paths_of(before).push(cfgv[k as int].1@)[plen + k]);
                    }
                },
                Err(e) => {
                    proof {
                        assert(!pairs_ok(psv, cfgv)) by {
                            if e == crate::scopes::ScopeError::PathAbsolute {
                                assert(candidate_path(psv, cfgv, plen + k) == cfgv[k as int].1@);
                                assert(candidate_path(psv, cfgv, plen + k).len() > 0
                                    && candidate_path(psv, cfgv, plen + k)[0] == '/');
                            } else {
                                let j = choose|j: int|
                                    0 <= j < before.len() && crate::scopes::paths_of(before)[j]
                                        == cfgv[k as int].1@;
                                assert(crate::scopes::paths_of(before)[j] == before[j].path@);
                                if j < plen {
                                    assert(candidate_path(psv, cfgv, j) == psv[j].dir@);
                                } else {
                                    assert(candidate_path(psv, cfgv, j) == cfgv[j - plen].1@);
                                }
                                assert(candidate_path(psv, cfgv, plen + k) == cfgv[k as int].1@);
                                assert(candidate_path(psv, cfgv, j) == candidate_path(
                                    psv,
                                    cfgv,
                                    plen + k,
                                ));
                            }
                        }
                    }
                    return Err(ChangesetError::Scopes(e));
                },
            }
            k = k + 1;
        }
        let scopes = builder.build();
        let count = scopes.len();
        let mut increments: Vec<Option<Increment>> = Vec::new();
        while increments.len() < count
            invariant
                increments@.len() <= count,
                forall|i2: int| 0 <= i2 < increments@.len() ==> increments@[i2]
                    is None,
            decreases count - increments@.len(),
        {
            increments.push(None);
        }
        let cs = Changeset { scopes, revisions: Vec::new(), increments };
        proof {
            assert(cs_wf(cs)) by {
                assert(forall|i2: int| 0 <= i2 < cs.increments@.len() ==> scope_inc(
                    cs.revisions@,
                    i2,
                ) is None);
            }
            assert(entries_are(cs.scopes.entries@, psv, cfgv));
        }
        Ok(cs)
    }

    /// Returns a reference to the scope set.
    pub fn scopes(&self) -> (r: &Scopes)
        ensures
            r.entries@ == self.scopes.entries@,
    {
        &self.scopes
    }

    /// Returns a reference to the revision list.
    pub fn revisions(&self) -> (r: &Vec<Revision>)
        ensures
            r@ == self.revisions@,
    {
        &self.revisions
    }

    /// Returns a reference to the increment slots.
    pub fn increments(&self) -> (r: &Vec<Option<Increment>>)
        ensures
            r@ == self.increments@,
    {
        &self.increments
    }

    /// Returns the number of revisions.
    pub fn len(&self) -> (r: usize)
        ensures
            r == self.revisions@.len(),
    {
        self.revisions.len()
    }

    /// Returns whether there are any revisions.
    pub fn is_empty(&self) -> (r: bool)
        ensures
            r == (self.revisions@.len() == 0),
    {
        self.revisions.len() == 0
    }

    /// Adds a commit to the changeset. A commit whose summary is no
    /// conventional-commit line is silently ignored; otherwise its scopes
    /// are resolved from the delta paths and every touched scope's slot
    /// is lifted to the change's increment when that is greater.
    pub fn add(&mut self, commit: Commit)
        requires
            cs_wf(*old(self)),
        ensures
            cs_wf(*final(self)),
            final(self).scopes.entries@ == old(self).scopes.entries@,
            crate::change::parse_change(commit.summary@) is Err ==> *final(self) == *old(self),
            crate::change::parse_change(commit.summary@) is Ok ==> final(self).revisions@.len()
                == old(self).revisions@.len() + 1 && (forall|i: int|
                0 <= i < old(self).revisions@.len() ==> final(self).revisions@[i] == old(
                    self,
                ).revisions@[i]) && revision_for(
                final(self).revisions@.last(),
                commit,
                old(self).scopes.entries@,
            ),
    {
        let ghost commit_model = commit;
        let parsed = Change::from_str(commit.summary.as_str());
        let change = match parsed {
            Ok(c) => c,
            Err(_) => {
                return ;
            },
        };
        // resolve the affected scopes from the delta paths
        let ghost entries = self.scopes.entries@;
        let mut touched: Vec<usize> = Vec::new();
        let mut p: usize = 0;
        while p < commit.paths.len()
            invariant
                p <= commit.paths@.len(),
                commit == commit_model,
                cs_wf(*self),
                *self == *old(self),
                entries == self.scopes.entries@,
                sorted_strict_usize(touched@),
                forall|t: int| 0 <= t < touched@.len() ==> (#[trigger] touched@[t]) < self.scopes
                    .entries@.len(),
                forall|i: usize| (#[trigger] touched@.to_set().contains(i)) <==> path_scope(
                    entries,
                    commit.paths@,
                    p as int,
                    i,
                ),
            decreases commit.paths@.len() - p,
        {
            let ghost before_touched = touched@;
            match self.scopes.get(commit.paths[p].as_str()) {
                Some(index) => {
                    proof {
                        assert(crate::scopes::is_deepest_match(
                            entries,
                            commit.paths@[p as int]@,
                            index as int,
                        ));
                    }
                    crate::text::insert_sorted_usize(&mut touched, index);
                    proof {
                        assert forall|t: int| 0 <= t < touched@.len() implies (
                        #[trigger] touched@[t]) < self.scopes.entries@.len() by {
                            assert(touched@.to_set().contains(touched@[t]));
                        }
                        assert forall|i: usize| (#[trigger] touched@.to_set().contains(i))
                            <==> path_scope(entries, commit.paths@, p + 1, i) by {
                            if touched@.to_set().contains(i) {
                                if i == index {
                                    assert(path_scope(entries, commit.paths@, p + 1, i)) by {
                                        assert(crate::scopes::is_deepest_match(
                                            entries,
                                            commit.paths@[p as int]@,
                                            i as int,
                                        ));
                                    }
                                } else {
                                    assert(before_touched.to_set().contains(i));
                                    let k = choose|k: int|
                                        #![trigger commit.paths@[k]]
                                        0 <= k < p && crate::scopes::is_deepest_match(
                                            entries,
                                            commit.paths@[k]@,
                                            i as int,
                                        );
                                    assert(path_scope(entries, commit.paths@, p + 1, i));
                                }
                            }
                            if path_scope(entries, commit.paths@, p + 1, i) {
                                let k = choose|k: int|
                                    #![trigger commit.paths@[k]]
                                    0 <= k < p + 1 && crate::scopes::is_deepest_match(
                                        entries,
                                        commit.paths@[k]@,
                                        i as int,
                                    );
                                if k < p {
                                    assert(path_scope(entries, commit.paths@, p as int, i));
                                    assert(before_touched.to_set().contains(i));
                                } else {
                                    // the deepest match of one path is unique
                                    assert(crate::scopes::is_deepest_match(
                                        entries,
                                        commit.paths@[p as int]@,
                                        i as int,
                                    ));
                                    if i != index {
                                        assert(crate::scopes::scope_depth(
                                            crate::scopes::paths_of(entries)[i as int],
                                        ) < crate::scopes::scope_depth(
                                            crate::scopes::paths_of(entries)[index as int],
                                        ));
                                        assert(crate::scopes::scope_depth(
                                            crate::scopes::paths_of(entries)[index as int],
                                        ) < crate::scopes::scope_depth(
                                            crate::scopes::paths_of(entries)[i as int],
                                        ));
                                        assert(false);
                                    }
                                }
                                assert(touched@.to_set().contains(i));
                            }
                        }
                    }
                },
                None => {
                    proof {
                        assert forall|i: usize| (#[trigger] touched@.to_set().contains(i))
                            <==> path_scope(entries, commit.paths@, p + 1, i) by {
                            if path_scope(entries, commit.paths@, p + 1, i) {
                                let k = choose|k: int|
                                    #![trigger commit.paths@[k]]
                                    0 <= k < p + 1 && crate::scopes::is_deepest_match(
                                        entries,
                                        commit.paths@[k]@,
                                        i as int,
                                    );
                                if k == p {
                                    assert(crate::scopes::scope_matches(
                                        commit.paths@[p as int]@,
                                        crate::scopes::paths_of(entries)[i as int],
                                    ));
                                    assert(false);
                                }
                                assert(path_scope(entries, commit.paths@, p as int, i));
                            } else {
                                if touched@.to_set().contains(i) {
                                    assert(path_scope(entries, commit.paths@, p as int, i));
                                    let k = choose|k: int|
                                        #![trigger commit.paths@[k]]
                                        0 <= k < p && crate::scopes::is_deepest_match(
                                            entries,
                                            commit.paths@[k]@,
                                            i as int,
                                        );
                                    assert(path_scope(entries, commit.paths@, p + 1, i));
                                }
                            }
                        }
                    }
                },
            }
            p = p + 1;
        }
        // lift every touched scope's slot
        let increment = change.as_increment();
        let ghost before_incs = self.increments@;
        let mut t: usize = 0;
        while t < touched.len()
            invariant
                t <= touched@.len(),
                self.increments@.len() == before_incs.len(),
                sorted_strict_usize(touched@),
                forall|q: int| 0 <= q < touched@.len() ==> (#[trigger] touched@[q])
                    < before_incs.len(),
                forall|i: int|
                    0 <= i < self.increments@.len() ==> #[trigger] self.increments@[i] == (
                    if exists|q: int| 0 <= q < t && touched@[q] == i {
                        opt_max_spec(before_incs[i], increment)
                    } else {
                        before_incs[i]
                    }),
                self.scopes.entries@ == old(self).scopes.entries@,
                self.revisions@ == old(self).revisions@,
                increment == as_increment_spec(change.kind, change.is_breaking),
            decreases touched@.len() - t,
        {
            let index = touched[t];
            let ghost pre = self.increments@;
            let current = self.increments[index];
            let next = crate::version::opt_max(current, increment);
            self.increments.set(index, next);
            proof {
                crate::version::lemma_opt_rank_injective(next, opt_max_spec(pre[index as int],
                    increment));
                assert forall|i: int| 0 <= i < self.increments@.len()
                    implies #[trigger] self.increments@[i] == (if exists|q: int|
                    0 <= q < t + 1 && touched@[q] == i {
                    opt_max_spec(before_incs[i], increment)
                } else {
                    before_incs[i]
                }) by {
                    if i == index {
                        assert(touched@[t as int] == index);
                        if exists|q: int| 0 <= q < t && touched@[q] == i {
                            // already lifted: lifting twice is the same
                            let q = choose|q: int| 0 <= q < t && touched@[q] == i;
                            assert(touched@[q] == touched@[t as int]);
                            assert(false);
                        }
                        assert(pre[i] == before_incs[i]);
                    } else {
                        assert(self.increments@[i] == pre[i]);
                        if exists|q: int| 0 <= q < t + 1 && touched@[q] == i {
                            let q = choose|q: int| 0 <= q < t + 1 && touched@[q] == i;
                            assert(q < t);
                            assert(exists|q2: int| 0 <= q2 < t && touched@[q2] == i);
                        }
                    }
                }
            }
            t = t + 1;
        }
        // collect issues and append the revision
        let issues = match commit.body.as_ref() {
            Some(b) => parse_issues(b.as_str()),
            None => {
                let empty: Vec<u32> = Vec::new();
                proof {
                    assert(empty@.to_set() =~= Set::<u32>::empty());
                }
                empty
            },
        };
        let ghost tv = touched@;
        let ghost issues_view = issues@;
        let incs_len = self.increments.len();
        let rev = Revision { commit, change, scopes: touched, issues };
        let ghost before_revs = self.revisions@;
        self.revisions.push(rev);
        proof {
            assert(self.revisions@.drop_last() =~= before_revs);
            let last = self.revisions@.last();
            assert(last.scopes@ == tv);
            assert(revision_for(last, commit_model, old(self).scopes.entries@)) by {
                assert(last.commit == commit_model);
                assert(last.issues@ == issues_view);
                assert(last.issues@.to_set() == issues_of(commit_model.body));
            }
            assert(forall|i: int|
                0 <= i < self.increments@.len() ==> #[trigger] self.increments@[i] == (
                if exists|q: int| 0 <= q < tv.len() && tv[q] == i {
                    opt_max_spec(before_incs[i], increment)
                } else {
                    before_incs[i]
                }));
            assert forall|i: int| 0 <= i < self.increments@.len()
                implies #[trigger] self.increments@[i] == scope_inc(self.revisions@, i) by {
                assert(scope_inc(self.revisions@, i) == opt_max_spec(
                    scope_inc(before_revs, i),
                    if last.scopes@.contains(i as usize) {
                        rev_inc(last)
                    } else {
                        None
                    },
                ));
                assert(before_incs[i] == scope_inc(before_revs, i));
                if last.scopes@.contains(i as usize) {
                    let q = choose|q: int| 0 <= q < last.scopes@.len() && last.scopes@[q]
                        == i as usize;
                    assert(tv[q] == i as usize);
                    assert(i < incs_len);
                    assert(tv[q] == i);
                    assert(exists|q2: int| 0 <= q2 < tv.len() && tv[q2] == i);
                } else {
                    if exists|q: int| 0 <= q < tv.len() && tv[q] == i {
                        let q = choose|q: int| 0 <= q < tv.len() && tv[q] == i;
                        assert(last.scopes@[q] == i as usize);
                        assert(last.scopes@.contains(i as usize));
                        assert(false);
                    }
                }
            }
        }
    }

    /// Adds every commit of a list to the changeset, in order: one
    /// revision is appended per commit whose summary parses, each exactly
    /// the revision its commit yields; the rest are ignored.
    pub fn extend(&mut self, commits: Vec<Commit>)
        requires
            cs_wf(*old(self)),
        ensures
            cs_wf(*final(self)),
            final(self).scopes.entries@ == old(self).scopes.entries@,
            final(self).revisions@.len() == old(self).revisions@.len() + accepted_prefix(
                commits@,
                commits@.len() as int,
            ).len(),
            forall|j: int| 0 <= j < old(self).revisions@.len() ==> final(self).revisions@[j] == old(
                self,
            ).revisions@[j],
            forall|j: int|
                0 <= j < accepted_prefix(commits@, commits@.len() as int).len() ==> revision_for(
                    #[trigger] final(self).revisions@[old(self).revisions@.len() + j],
                    accepted_prefix(commits@, commits@.len() as int)[j],
                    old(self).scopes.entries@,
                ),
    {
        let ghost all = commits@;
        let ghost base = old(self).revisions@.len() as int;
        let total = commits.len();
        let mut items = commits;
        let mut done: usize = 0;
        while items.len() > 0
            invariant
                base == old(self).revisions@.len(),
                cs_wf(*self),
                self.scopes.entries@ == old(self).scopes.entries@,
                total == all.len(),
                done + items@.len() == total,
                items@ == all.subrange(done as int, all.len() as int),
                self.revisions@.len() == base + accepted_prefix(all, done as int).len(),
                forall|j: int| 0 <= j < base ==> self.revisions@[j] == old(self).revisions@[j],
                forall|j: int|
                    0 <= j < accepted_prefix(all, done as int).len() ==> revision_for(
                        #[trigger] self.revisions@[base + j],
                        accepted_prefix(all, done as int)[j],
                        old(self).scopes.entries@,
                    ),
            decreases items@.len(),
        {
            let ghost pre_items = items@;
            let ghost pre_revs = self.revisions@;
            let c = items.remove(0);
            proof {
                assert(c == all[done as int]);
                assert(items@ =~= all.subrange(done + 1, all.len() as int));
            }
            self.add(c);
            proof {
                let ghost acc_old = accepted_prefix(all, done as int);
                let ghost acc_new = accepted_prefix(all, done + 1);
                if crate::change::parse_change(all[done as int].summary@) is Ok {
                    assert(acc_new =~= acc_old + seq![all[done as int]]);
                    assert(pre_revs.len() == base + acc_old.len());
                    assert(self.revisions@.len() == pre_revs.len() + 1);
                    assert(forall|i: int| 0 <= i < pre_revs.len() ==> #[trigger] self.revisions@[i]
                        == pre_revs[i]);
                    assert(self.revisions@.len() == base + acc_new.len());
                    assert forall|j: int| 0 <= j < acc_new.len() implies revision_for(
                        #[trigger] self.revisions@[base + j],
                        acc_new[j],
                        old(self).scopes.entries@,
                    ) by {
                        if j < acc_old.len() {
                            assert(0 <= base + j < pre_revs.len());
                            assert(self.revisions@[base + j] == pre_revs[base + j]);
                            assert(acc_new[j] == acc_old[j]);
                            assert(revision_for(
                                pre_revs[base + j],
                                acc_old[j],
                                old(self).scopes.entries@,
                            ));
                        } else {
                            assert(acc_new[j] == all[done as int]);
                            assert(self.revisions@[base + j] == self.revisions@.last());
                            assert(revision_for(
                                self.revisions@.last(),
                                all[done as int],
                                old(self).scopes.entries@,
                            ));
                        }
                    }
                } else {
                    assert(acc_new =~= acc_old);
                    assert(forall|j: int| 0 <= j < base ==> self.revisions@[j]
                        == #[trigger] pre_revs[j]);
                }
            }
            done = done + 1;
        }
        proof {
            assert(accepted_prefix(all, done as int) == accepted_prefix(all, all.len() as int));
        }
    }

    /// Returns the summary: the newest revision's commit body with its
    /// trailer block and surrounding whitespace removed. Fails when there
    /// is no revision, no body, or nothing but trailers and whitespace.
    pub fn summary(&self) -> (r: Result<String, ChangesetError>)
        ensures
            match r {
                Ok(s) => self.revisions@.len() > 0 && self.revisions@[0].commit.body is Some && s@
                    == trim_spec(
                    self.revisions@[0].commit.body.unwrap()@.subrange(
                        0,
                        trimmed_end(self.revisions@[0].commit.body.unwrap()@),
                    ),
                ) && s@.len() > 0,
                Err(e) => e == ChangesetError::Summary && (self.revisions@.len() == 0
                    || self.revisions@[0].commit.body is None || trim_spec(
                    self.revisions@[0].commit.body.unwrap()@.subrange(
                        0,
                        trimmed_end(self.revisions@[0].commit.body.unwrap()@),
                    ),
                ).len() == 0),
            },
    {
        if self.revisions.len() == 0 {
            return Err(ChangesetError::Summary);
        }
        let body = match self.revisions[0].commit.body.as_ref() {
            Some(b) => b,
            None => {
                return Err(ChangesetError::Summary);
            },
        };
        let v = str_chars(body.as_str());
        let e = trim_trailers_end(&v);
        let (a, b) = trim_range(&v, 0, e);
        if a == b {
            proof {
                assert(v@.subrange(0, e as int) == body@.subrange(0, trimmed_end(body@)));
            }
            return Err(ChangesetError::Summary);
        }
        let out = copy_range(&v, a, b);
        proof {
            assert(v@.subrange(0, e as int) == body@.subrange(0, trimmed_end(body@)));
        }
        Ok(crate::text::chars_to_string(&out))
    }
}

/// The increment slot of every scope is exactly the maximum increment
/// over the accepted revisions that touch it.
pub proof fn lemma_increments_accumulate(cs: Changeset, i: int)
    requires
        cs_wf(cs),
        0 <= i < cs.increments@.len(),
    ensures
        cs.increments@[i] == scope_inc(cs.revisions@, i),
{
}

} // verus!
