//! Scope sets: a registry of relative directory paths with names, queried
//! by a file path for the deepest scope whose directory contains it.

use vstd::prelude::*;

use crate::text::str_chars;

verus! {

// ------------------------------------------------------------------------
// Errors
// ------------------------------------------------------------------------

/// Why a scope could not be added.
#[derive(Clone, Copy, Debug, PartialEq, Eq, Structural)]
pub enum ScopeError {
    /// The path is absolute.
    PathAbsolute,
    /// A scope with the same path already exists.
    PathExists,
}

// ------------------------------------------------------------------------
// Matching
// ------------------------------------------------------------------------

/// Whether the file path `p` lies under the scope directory `q`: the empty
/// scope contains every nonempty path, and otherwise `q` must be a proper
/// prefix of `p` followed by a path separator.
pub open spec fn scope_matches(p: Seq<char>, q: Seq<char>) -> bool {
    if q.len() == 0 {
        p.len() > 0
    } else {
        p.len() > q.len() && p.subrange(0, q.len() as int) == q && p[q.len() as int] == '/'
    }
}

/// The number of `/` characters in a path.
pub open spec fn slash_count(q: Seq<char>) -> nat
    decreases q.len(),
{
    if q.len() == 0 {
        0
    } else {
        slash_count(q.drop_last()) + (if q.last() == '/' {
            1nat
        } else {
            0nat
        })
    }
}

/// The number of components of a scope path: zero for the empty path, one
/// more than its separators otherwise.
pub open spec fn scope_depth(q: Seq<char>) -> nat {
    if q.len() == 0 {
        0
    } else {
        slash_count(q) + 1
    }
}

proof fn lemma_slash_count_prefix(q: Seq<char>, k: int)
    requires
        0 <= k <= q.len(),
    ensures
        slash_count(q) >= slash_count(q.subrange(0, k)) + (if k < q.len() && q[k] == '/' {
            1nat
        } else {
            0nat
        }),
    decreases q.len() - k,
{
    if k == q.len() {
        assert(q.subrange(0, k) =~= q);
    } else {
        lemma_slash_count_prefix(q, k + 1);
        assert(q.subrange(0, k + 1).drop_last() =~= q.subrange(0, k));
        assert(q.subrange(0, k + 1).last() == q[k]);
    }
}

/// Whether scope `i` is the deepest scope whose directory contains the
/// path: the index `get` resolves a file path to.
pub open spec fn is_deepest_match(entries: Seq<Scope>, p: Seq<char>, i: int) -> bool {
    &&& 0 <= i < entries.len()
    &&& scope_matches(p, paths_of(entries)[i])
    &&& forall|j: int|
        0 <= j < entries.len() && j != i && scope_matches(p, #[trigger] paths_of(entries)[j])
            ==> scope_depth(paths_of(entries)[j]) < scope_depth(paths_of(entries)[i])
}

/// Two scopes of equal depth that both contain a path are the same scope.
pub proof fn lemma_deepest_scope_unique(p: Seq<char>, a: Seq<char>, b: Seq<char>)
    requires
        scope_matches(p, a),
        scope_matches(p, b),
        scope_depth(a) == scope_depth(b),
    ensures
        a == b,
{
    if a.len() == 0 || b.len() == 0 {
        if a.len() == 0 && b.len() > 0 {
            lemma_slash_count_prefix(b, 0);
            assert(b.subrange(0, 0) =~= Seq::<char>::empty());
        }
        if b.len() == 0 && a.len() > 0 {
            lemma_slash_count_prefix(a, 0);
            assert(a.subrange(0, 0) =~= Seq::<char>::empty());
        }
        if a.len() == 0 && b.len() == 0 {
            assert(a =~= b);
        }
    } else if a.len() == b.len() {
        assert(a =~= b) by {
            assert(forall|j: int| 0 <= j < a.len() ==> a[j] == #[trigger] p[j] && b[j] == p[j]);
        }
    } else if a.len() < b.len() {
        lemma_nested_depth(p, a, b);
    } else {
        lemma_nested_depth(p, b, a);
    }
}

/// A strictly shorter matching scope has a strictly smaller depth.
proof fn lemma_nested_depth(p: Seq<char>, a: Seq<char>, b: Seq<char>)
    requires
        scope_matches(p, a),
        scope_matches(p, b),
        0 < a.len() < b.len(),
    ensures
        scope_depth(a) < scope_depth(b),
{
    // a and b are both prefixes of p, so a is a prefix of b, and the
    // character of b after a is a separator
    assert(forall|j: int| 0 <= j < a.len() ==> a[j] == #[trigger] p[j]);
    assert(forall|j: int| 0 <= j < b.len() ==> b[j] == #[trigger] p[j]);
    assert(b.subrange(0, a.len() as int) =~= a);
    assert(b[a.len() as int] == p[a.len() as int]);
    lemma_slash_count_prefix(b, a.len() as int);
}

// ------------------------------------------------------------------------
// Scope sets
// ------------------------------------------------------------------------

/// A scope: a relative directory path and a name.
#[derive(Debug)]
pub struct Scope {
    /// The directory path, relative, with `/` separators.
    pub path: String,
    /// The scope name.
    pub name: String,
}

/// A set of scopes keyed by path, in insertion order.
#[derive(Debug)]
pub struct Scopes {
    /// The registered scopes.
    pub entries: Vec<Scope>,
}

/// A scope set builder.
#[derive(Debug)]
pub struct Builder {
    /// The scopes collected so far.
    pub entries: Vec<Scope>,
}

/// The paths of a scope list.
pub open spec fn paths_of(entries: Seq<Scope>) -> Seq<Seq<char>> {
    entries.map_values(|e: Scope| e.path@)
}

/// Whether all scope paths are relative and pairwise distinct.
pub open spec fn scopes_wf(entries: Seq<Scope>) -> bool {
    &&& forall|i: int| 0 <= i < entries.len() ==> !(#[trigger] paths_of(entries)[i].len() > 0
        && paths_of(entries)[i][0] == '/')
    &&& forall|i: int, j: int| 0 <= i < j < entries.len() ==> paths_of(entries)[i] != paths_of(
        entries,
    )[j]
}

impl Builder {
    /// Creates an empty scope set builder.
    pub fn new() -> (r: Builder)
        ensures
            r.entries@.len() == 0,
            scopes_wf(r.entries@),
    {
        Builder { entries: Vec::new() }
    }

    /// Adds a scope, rejecting absolute and duplicate paths.
    pub fn add(&mut self, path: &str, name: &str) -> (r: Result<(), ScopeError>)
        requires
            scopes_wf(old(self).entries@),
        ensures
            scopes_wf(final(self).entries@),
            match r {
                Ok(()) => final(self).entries@.len() == old(self).entries@.len() + 1 && paths_of(
                    final(self).entries@,
                ) == paths_of(old(self).entries@).push(path@) && final(self).entries@.last().name@
                    == name@ && !(path@.len() > 0 && path@[0] == '/') && (forall|i: int|
                    0 <= i < old(self).entries@.len() ==> paths_of(old(self).entries@)[i] != path@)
                    && (forall|i: int| 0 <= i < old(self).entries@.len()
                    ==> final(self).entries@[i] == old(self).entries@[i]),
                Err(ScopeError::PathAbsolute) => *final(self) == *old(self) && path@.len() > 0
                    && path@[0] == '/',
                Err(ScopeError::PathExists) => *final(self) == *old(self) && (exists|i: int|
                    0 <= i < old(self).entries@.len() && paths_of(old(self).entries@)[i] == path@),
            },
    {
        let pc = str_chars(path);
        if pc.len() > 0 && pc[0] == '/' {
            return Err(ScopeError::PathAbsolute);
        }
        let mut i: usize = 0;
        while i < self.entries.len()
            invariant
                i <= self.entries@.len(),
                *self == *old(self),
                scopes_wf(self.entries@),
                pc@ == path@,
                forall|j: int| 0 <= j < i ==> paths_of(self.entries@)[j] != path@,
            decreases self.entries@.len() - i,
        {
            if crate::change::range_eq_str(&pc, 0, pc.len(), self.entries[i].path.as_str()) {
                proof {
                    assert(pc@.subrange(0, pc@.len() as int) =~= path@);
                    assert(paths_of(self.entries@)[i as int] == path@);
                }
                return Err(ScopeError::PathExists);
            }
            proof {
                assert(pc@.subrange(0, pc@.len() as int) =~= path@);
                assert(paths_of(self.entries@)[i as int] == self.entries@[i as int].path@);
            }
            i = i + 1;
        }
        let ghost before = self.entries@;
        self.entries.push(
            Scope { path: path.to_owned(), name: name.to_owned() },
        );
        proof {
            assert(paths_of(self.entries@) =~= paths_of(before).push(path@));
            assert(forall|j: int| 0 <= j < before.len() ==> paths_of(self.entries@)[j] == paths_of(
                before,
            )[j]);
            assert(scopes_wf(self.entries@));
        }
        Ok(())
    }

    /// Builds the scope set.
    pub fn build(self) -> (r: Scopes)
        requires
            scopes_wf(self.entries@),
        ensures
            r.entries@ == self.entries@,
            scopes_wf(r.entries@),
    {
        Scopes { entries: self.entries }
    }
}

/// Whether `v` starts with the directory `q` as a scope, as
/// `scope_matches` states it.
fn matches_scope(v: &Vec<char>, q: &str) -> (r: bool)
    ensures
        r == scope_matches(v@, q@),
{
    let qc = str_chars(q);
    if qc.len() == 0 {
        return v.len() > 0;
    }
    if v.len() <= qc.len() {
        return false;
    }
    let mut i: usize = 0;
    while i < qc.len()
        invariant
            qc@ == q@,
            v@.len() > qc@.len(),
            i <= qc@.len(),
            forall|j: int| 0 <= j < i ==> v@[j] == q@[j],
        decreases qc@.len() - i,
    {
        if v[i] != qc[i] {
            proof {
                if v@.subrange(0, q@.len() as int) == q@ {
                    assert(v@.subrange(0, q@.len() as int)[i as int] == v@[i as int]);
                }
            }
            return false;
        }
        i = i + 1;
    }
    proof {
        assert(v@.subrange(0, q@.len() as int) =~= q@);
    }
    v[qc.len()] == '/'
}

/// The number of separators in the scope path `q`, with whether it is
/// empty.
fn slashes_of(q: &str) -> (r: (bool, usize))
    ensures
        r.0 == (q@.len() == 0),
        r.1 as nat == slash_count(q@),
{
    let qc = str_chars(q);
    if qc.len() == 0 {
        return (true, 0);
    }
    let mut count: usize = 0;
    let mut i: usize = 0;
    while i < qc.len()
        invariant
            qc@ == q@,
            i <= qc@.len(),
            count as nat == slash_count(q@.subrange(0, i as int)),
            count <= i,
        decreases qc@.len() - i,
    {
        proof {
            assert(q@.subrange(0, i + 1).drop_last() =~= q@.subrange(0, i as int));
            assert(q@.subrange(0, i + 1).last() == q@[i as int]);
        }
        if qc[i] == '/' {
            count = count + 1;
        }
        i = i + 1;
    }
    proof {
        assert(q@.subrange(0, q@.len() as int) =~= q@);
    }
    (false, count)
}

impl Scopes {
    /// Creates a scope set builder.
    pub fn builder() -> (r: Builder)
        ensures
            r.entries@.len() == 0,
            scopes_wf(r.entries@),
    {
        Builder::new()
    }

    /// Returns the number of scopes.
    pub fn len(&self) -> (r: usize)
        ensures
            r == self.entries@.len(),
    {
        self.entries.len()
    }

    /// Returns whether there are any scopes.
    pub fn is_empty(&self) -> (r: bool)
        ensures
            r == (self.entries@.len() == 0),
    {
        self.entries.len() == 0
    }

    /// Returns the name of the scope at an index.
    pub fn name_at(&self, index: usize) -> (r: &String)
        requires
            index < self.entries@.len(),
        ensures
            r@ == self.entries@[index as int].name@,
    {
        &self.entries[index].name
    }

    /// Returns the path of the scope at an index.
    pub fn path_at(&self, index: usize) -> (r: &String)
        requires
            index < self.entries@.len(),
        ensures
            r@ == self.entries@[index as int].path@,
    {
        &self.entries[index].path
    }

    /// Returns the index of the deepest scope whose directory contains the
    /// given path, or nothing when no scope does. With distinct scope
    /// paths the deepest containing scope is unique.
    pub fn get(&self, path: &str) -> (r: Option<usize>)
        requires
            scopes_wf(self.entries@),
        ensures
            match r {
                None => forall|j: int| 0 <= j < self.entries@.len() ==> !scope_matches(
                    path@,
                    #[trigger] paths_of(self.entries@)[j],
                ),
                Some(i) => is_deepest_match(self.entries@, path@, i as int),
            },
    {
        let pc = str_chars(path);
        let mut best: Option<usize> = None;
        let mut best_empty: bool = false;
        let mut best_slashes: usize = 0;
        let mut i: usize = 0;
        while i < self.entries.len()
            invariant
                scopes_wf(self.entries@),
                pc@ == path@,
                i <= self.entries@.len(),
                match best {
                    None => forall|j: int| 0 <= j < i ==> !scope_matches(
                        path@,
                        #[trigger] paths_of(self.entries@)[j],
                    ),
                    Some(b) => b < i && scope_matches(path@, paths_of(self.entries@)[b as int])
                        && best_empty == (paths_of(self.entries@)[b as int].len() == 0)
                        && best_slashes as nat == slash_count(paths_of(self.entries@)[b as int])
                        && (forall|j: int|
                        0 <= j < i && j != b && scope_matches(
                            path@,
                            #[trigger] paths_of(self.entries@)[j],
                        ) ==> scope_depth(paths_of(self.entries@)[j]) < scope_depth(
                            paths_of(self.entries@)[b as int],
                        )),
                },
            decreases self.entries@.len() - i,
        {
            proof {
                assert(paths_of(self.entries@)[i as int] == self.entries@[i as int].path@);
            }
            if matches_scope(&pc, self.entries[i].path.as_str()) {
                let (is_empty, slashes) = slashes_of(self.entries[i].path.as_str());
                match best {
                    None => {
                        best = Some(i);
                        best_empty = is_empty;
                        best_slashes = slashes;
                    },
                    Some(b) => {
                        let ghost pb = paths_of(self.entries@)[b as int];
                        let ghost pi = paths_of(self.entries@)[i as int];
                        let deeper: bool = if best_empty {
                            !is_empty
                        } else {
                            !is_empty && slashes > best_slashes
                        };
                        if deeper {
                            proof {
                                assert(scope_depth(pi) > scope_depth(pb));
                            }
                            best = Some(i);
                            best_empty = is_empty;
                            best_slashes = slashes;
                        } else {
                            // equal depths cannot happen for two distinct
                            // matching scopes
                            proof {
                                if scope_depth(pi) == scope_depth(pb) {
                                    lemma_deepest_scope_unique(path@, pb, pi);
                                }
                                assert(scope_depth(pi) < scope_depth(pb));
                            }
                        }
                    },
                }
            }
            i = i + 1;
        }
        best
    }
}

} // verus!
