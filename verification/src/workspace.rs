//! The workspace model: projects with their manifest data, the name-sorted
//! package list, and the computation of next versions from increments.

use vstd::prelude::*;

use crate::text::{clone_string, str_chars};
use crate::version::{chars_lt, Increment, Version};

verus! {

// ------------------------------------------------------------------------
// Manifest data
// ------------------------------------------------------------------------

/// The manifest flavor of a workspace.
#[derive(Clone, Copy, Debug, PartialEq, Eq, Structural)]
pub enum Flavor {
    /// Cargo-style TOML manifests.
    Cargo,
    /// Node-style JSON manifests.
    Node,
}

/// What the engine reads from a manifest: the package name and version,
/// the member patterns, and the names of the declared dependencies.
#[derive(Debug)]
pub struct ManifestData {
    /// The package name, absent for workspace-only manifests.
    pub name: Option<String>,
    /// The package version, absent for workspace-only manifests.
    pub version: Option<Version>,
    /// The member glob patterns.
    pub members: Vec<String>,
    /// The names of the declared dependencies.
    pub dependencies: Vec<String>,
}

/// A project: a manifest file path, the project directory relative to the
/// workspace root, and the manifest data.
#[derive(Debug)]
pub struct Project {
    /// The manifest file path.
    pub path: String,
    /// The project directory relative to the workspace root, empty for the
    /// root project, with `/` separators.
    pub dir: String,
    /// The manifest data.
    pub manifest: ManifestData,
}

impl Project {
    /// The package name as a sequence, if any.
    pub open spec fn name_view(self) -> Option<Seq<char>> {
        match self.manifest.name {
            Some(n) => Some(n@),
            None => None,
        }
    }

    /// Returns a reference to the package name, if any.
    pub fn name(&self) -> (r: Option<&String>)
        ensures
            match r {
                Some(n) => self.name_view() == Some(n@),
                None => self.name_view() is None,
            },
    {
        self.manifest.name.as_ref()
    }

    /// Returns a reference to the package version, if any.
    pub fn version(&self) -> (r: Option<&Version>)
        ensures
            match r {
                Some(v) => self.manifest.version == Some(*v),
                None => self.manifest.version is None,
            },
    {
        self.manifest.version.as_ref()
    }
}

// ------------------------------------------------------------------------
// Workspaces
// ------------------------------------------------------------------------

/// A workspace: a root path and its projects, ordered by directory.
#[derive(Debug)]
pub struct Workspace {
    /// The workspace root path.
    pub root: String,
    /// The manifest flavor.
    pub flavor: Flavor,
    /// The projects, sorted by directory.
    pub projects: Vec<Project>,
}

/// Whether the project list is strictly sorted by directory.
pub open spec fn projects_sorted(ps: Seq<Project>) -> bool {
    forall|i: int, j: int| 0 <= i < j < ps.len() ==> chars_lt(
        #[trigger] ps[i].dir@,
        #[trigger] ps[j].dir@,
    )
}

/// Whether entry `i` of `ps` is one of the input projects.
pub open spec fn proj_in(ps: Seq<Project>, input: Seq<Project>, i: int) -> bool {
    exists|j: int| #![trigger input[j]] 0 <= j < input.len() && ps[i] == input[j]
}

/// Whether every entry of `ps` is one of the input projects.
pub open spec fn projects_from(ps: Seq<Project>, input: Seq<Project>) -> bool {
    forall|i: int| 0 <= i < ps.len() ==> #[trigger] proj_in(ps, input, i)
}

/// An input witness for an entry of a retained project list.
proof fn proj_in_witness(ps: Seq<Project>, input: Seq<Project>, i: int) -> (j: int)
    requires
        projects_from(ps, input),
        0 <= i < ps.len(),
    ensures
        0 <= j < input.len(),
        ps[i] == input[j],
{
    assert(proj_in(ps, input, i));
    choose|j: int| #![trigger input[j]] 0 <= j < input.len() && ps[i] == input[j]
}

/// Whether some entry of `ps` lives in input project `j`'s directory.
pub open spec fn dir_covered(ps: Seq<Project>, input: Seq<Project>, j: int) -> bool {
    exists|i: int| #![trigger ps[i]] 0 <= i < ps.len() && ps[i].dir@ == input[j].dir@
}

/// Whether the first `upto` input directories all appear in `ps`.
pub open spec fn dirs_covered(ps: Seq<Project>, input: Seq<Project>, upto: int) -> bool {
    forall|j: int| 0 <= j < upto ==> #[trigger] dir_covered(ps, input, j)
}

/// An entry witness for a covered input directory.
proof fn dir_covered_witness(ps: Seq<Project>, input: Seq<Project>, upto: int, j: int) -> (i: int)
    requires
        dirs_covered(ps, input, upto),
        0 <= j < upto,
    ensures
        0 <= i < ps.len(),
        ps[i].dir@ == input[j].dir@,
{
    assert(dir_covered(ps, input, j));
    choose|i: int| #![trigger ps[i]] 0 <= i < ps.len() && ps[i].dir@ == input[j].dir@
}

impl Workspace {
    /// Assembles a workspace from its projects, ordering them by
    /// directory: every entry of the result is one of the given projects,
    /// every given directory is present, and of two projects in the same
    /// directory the later one stays.
    pub fn new(root: String, flavor: Flavor, projects: Vec<Project>) -> (r: Workspace)
        ensures
            r.root@ == root@,
            r.flavor == flavor,
            projects_sorted(r.projects@),
            projects_from(r.projects@, projects@),
            dirs_covered(r.projects@, projects@, projects@.len() as int),
    {
        let mut sorted: Vec<Project> = Vec::new();
        let ghost input = projects@;
        let total = projects.len();
        let mut items = projects;
        let mut done: usize = 0;
        // insert each project in directory order, replacing an earlier
        // project in the same directory
        while items.len() > 0
            invariant
                total == input.len(),
                done + items@.len() == total,
                items@ == input.subrange(done as int, input.len() as int),
                projects_sorted(sorted@),
                projects_from(sorted@, input),
                dirs_covered(sorted@, input, done as int),
            decreases items@.len(),
        {
            let p = items.remove(0);
            proof {
                assert(p == input[done as int]);
                assert(items@ =~= input.subrange(done + 1, input.len() as int));
            }
            let ghost before_sorted = sorted@;
            let ghost pm = p;
            let replaced = insert_project(&mut sorted, p);
            proof {
                let idx: int = if replaced {
                    choose|k: int|
                        0 <= k < before_sorted.len() && (#[trigger] before_sorted[k]).dir@
                            == pm.dir@ && sorted@ == before_sorted.update(k, pm)
                } else {
                    choose|k: int|
                        0 <= k <= before_sorted.len() && sorted@ == #[trigger] before_sorted.insert(
                            k,
                            pm,
                        )
                };
                if !replaced {
                    before_sorted.insert_ensures(idx, pm);
                }
                assert(sorted@[idx] == pm);
                assert(projects_from(sorted@, input)) by {
                    assert forall|i: int| 0 <= i < sorted@.len() implies #[trigger] proj_in(
                        sorted@,
                        input,
                        i,
                    ) by {
                        if i == idx {
                            assert(sorted@[i] == input[done as int]);
                        } else {
                            let oi: int = if replaced || i < idx {
                                i
                            } else {
                                i - 1
                            };
                            assert(sorted@[i] == before_sorted[oi]);
                            let j = proj_in_witness(before_sorted, input, oi);
                            assert(sorted@[i] == input[j]);
                        }
                    }
                }
                assert(dirs_covered(sorted@, input, done + 1)) by {
                    assert forall|j: int| 0 <= j < done + 1 implies #[trigger] dir_covered(
                        sorted@,
                        input,
                        j,
                    ) by {
                        if j == done {
                            assert(dir_covered(sorted@, input, j)) by {
                                assert(sorted@[idx].dir@ == input[j].dir@);
                            }
                        } else {
                            let i0 = dir_covered_witness(before_sorted, input, done as int, j);
                            if replaced && i0 == idx {
                                assert(before_sorted[idx].dir@ == pm.dir@);
                                assert(dir_covered(sorted@, input, j)) by {
                                    assert(sorted@[idx].dir@ == input[j].dir@);
                                }
                            } else {
                                let ni: int = if replaced || i0 < idx {
                                    i0
                                } else {
                                    i0 + 1
                                };
                                assert(sorted@[ni] == before_sorted[i0]);
                                assert(dir_covered(sorted@, input, j)) by {
                                    assert(sorted@[ni].dir@ == input[j].dir@);
                                }
                            }
                        }
                    }
                }
            }
            done = done + 1;
        }
        Workspace { root, flavor, projects: sorted }
    }

    /// Returns the number of projects.
    pub fn len(&self) -> (r: usize)
        ensures
            r == self.projects@.len(),
    {
        self.projects.len()
    }

    /// Returns a reference to the project at an index.
    pub fn project_at(&self, index: usize) -> (r: &Project)
        requires
            index < self.projects@.len(),
        ensures
            *r == self.projects@[index as int],
    {
        &self.projects[index]
    }

    /// Returns a reference to the last project carrying the given package
    /// name, or nothing when no project does.
    pub fn get(&self, name: &str) -> (r: Option<&Project>)
        ensures
            match r {
                Some(p) => (exists|i: int|
                    0 <= i < self.projects@.len() && *p == self.projects@[i] && p.name_view()
                        == Some(name@)),
                None => forall|i: int| 0 <= i < self.projects@.len()
                    ==> #[trigger] self.projects@[i].name_view() != Some(name@),
            },
    {
        let nc = str_chars(name);
        let n = self.projects.len();
        let mut k: usize = n;
        // scan from the end so that the last match wins
        while k > 0
            invariant
                k <= n,
                n == self.projects@.len(),
                nc@ == name@,
                forall|i: int| k <= i < n ==> #[trigger] self.projects@[i].name_view() != Some(
                    name@,
                ),
            decreases k,
        {
            k = k - 1;
            match self.projects[k].manifest.name.as_ref() {
                Some(pname) => {
                    if crate::change::range_eq_str(&nc, 0, nc.len(), pname.as_str()) {
                        proof {
                            assert(nc@.subrange(0, nc@.len() as int) =~= name@);
                        }
                        return Some(&self.projects[k]);
                    }
                    proof {
                        assert(nc@.subrange(0, nc@.len() as int) =~= name@);
                    }
                },
                None => {},
            }
        }
        None
    }

    /// Returns the packages of the workspace: the directory, name and
    /// version of each named project, sorted by name; of two projects with
    /// one name the later one stays.
    #[verifier::rlimit(80)]
    pub fn packages(&self) -> (r: Vec<Package>)
        ensures
            names_sorted(r@),
            pkgs_correspond(r@, self.projects@),
            names_covered(r@, self.projects@, self.projects@.len() as int),
    {
        let mut out: Vec<Package> = Vec::new();
        let mut i: usize = 0;
        while i < self.projects.len()
            invariant
                i <= self.projects@.len(),
                names_sorted(out@),
                pkgs_correspond(out@, self.projects@),
                names_covered(out@, self.projects@, i as int),
            decreases self.projects@.len() - i,
        {
            let project = &self.projects[i];
            match project.manifest.name.as_ref() {
                Some(pname) => {
                    let dir = clone_string(&project.dir);
                    let nm = clone_string(pname);
                    let version = match project.manifest.version.as_ref() {
                        Some(v) => Some(v.duplicate()),
                        None => None,
                    };
                    let ghost before_out = out@;
                    let pkv = Package { dir, name: nm, version };
                    let ghost pk = pkv;
                    proof {
                        assert(self.projects@[i as int].name_view() == Some(pname@));
                        assert(corresponds(pk, self.projects@[i as int]));
                    }
                    let replaced = insert_package(&mut out, pkv);
                    proof {
                        let k: int = if replaced {
                            choose|k: int|
                                0 <= k < before_out.len() && #[trigger] before_out[k].name@
                                    == pk.name@ && out@ == before_out.update(k, pk)
                        } else {
                            choose|k: int|
                                0 <= k <= before_out.len() && out@ == #[trigger] before_out.insert(
                                    k,
                                    pk,
                                )
                        };
                        if !replaced {
                            before_out.insert_ensures(k, pk);
                        }
                        assert(out@[k] == pk);
                        assert(pkgs_correspond(out@, self.projects@)) by {
                            assert forall|m: int| 0 <= m < out@.len()
                                implies #[trigger] has_project(out@, self.projects@, m) by {
                                if m == k {
                                    assert(corresponds(out@[m], self.projects@[i as int]));
                                } else {
                                    let mm: int = if replaced || m < k {
                                        m
                                    } else {
                                        m - 1
                                    };
                                    assert(out@[m] == before_out[mm]);
                                    let j1 = correspond_witness(before_out, self.projects@, mm);
                                    assert(corresponds(out@[m], self.projects@[j1]));
                                }
                            }
                        }
                        assert(names_covered(out@, self.projects@, i + 1)) by {
                            assert forall|j: int|
                                0 <= j < i + 1 && self.projects@[j].name_view() is Some
                                implies #[trigger] name_present(out@, self.projects@, j) by {
                                if j == i {
                                    assert(out@[k].name@ == self.projects@[j].name_view().unwrap());
                                } else {
                                    let m1 = covered_witness(
                                        before_out,
                                        self.projects@,
                                        i as int,
                                        j,
                                    );
                                    if replaced {
                                        if m1 == k {
                                            assert(out@[k].name@ == before_out[m1].name@);
                                        } else {
                                            assert(out@[m1].name@ == before_out[m1].name@);
                                        }
                                    } else {
                                        if m1 < k {
                                            assert(out@[m1].name@ == before_out[m1].name@);
                                        } else {
                                            assert(out@[m1 + 1].name@ == before_out[m1].name@);
                                        }
                                    }
                                }
                            }
                        }
                    }
                },
                None => {
                    proof {
                        assert(self.projects@[i as int].name_view() is None);
                        assert(names_covered(out@, self.projects@, i + 1)) by {
                            assert forall|j: int|
                                0 <= j < i + 1 && self.projects@[j].name_view() is Some
                                implies #[trigger] name_present(out@, self.projects@, j) by {
                                if j < i {
                                    let m1 = covered_witness(out@, self.projects@, i as int, j);
                                    assert(out@[m1].name@ == self.projects@[j].name_view().unwrap());
                                }
                            }
                        }
                    }
                },
            }
            i = i + 1;
        }
        out
    }
}

/// Whether entry `k` of a package list reflects some named project.
pub open spec fn has_project(s: Seq<Package>, ps: Seq<Project>, k: int) -> bool {
    exists|j: int| #![trigger ps[j]] 0 <= j < ps.len() && corresponds(s[k], ps[j])
}

/// Whether every entry of a package list reflects some named project.
pub open spec fn pkgs_correspond(s: Seq<Package>, ps: Seq<Project>) -> bool {
    forall|k: int| 0 <= k < s.len() ==> #[trigger] has_project(s, ps, k)
}

/// A project witness for an entry of a corresponding package list.
proof fn correspond_witness(s: Seq<Package>, ps: Seq<Project>, k: int) -> (j: int)
    requires
        pkgs_correspond(s, ps),
        0 <= k < s.len(),
    ensures
        0 <= j < ps.len(),
        corresponds(s[k], ps[j]),
{
    assert(has_project(s, ps, k));
    choose|j: int| #![trigger ps[j]] 0 <= j < ps.len() && corresponds(s[k], ps[j])
}

/// Whether the name of project `j` occurs among the package entries.
pub open spec fn name_present(s: Seq<Package>, ps: Seq<Project>, j: int) -> bool {
    exists|m: int|
        #![trigger s[m]]
        0 <= m < s.len() && s[m].name@ == ps[j].name_view().unwrap()
}

/// Whether every named project among the first `upto` has an entry with
/// its name in the package list.
pub open spec fn names_covered(s: Seq<Package>, ps: Seq<Project>, upto: int) -> bool {
    forall|j: int| 0 <= j < upto && ps[j].name_view() is Some ==> #[trigger] name_present(s, ps, j)
}

/// An entry witness for a covered project name.
proof fn covered_witness(s: Seq<Package>, ps: Seq<Project>, upto: int, j: int) -> (m: int)
    requires
        names_covered(s, ps, upto),
        0 <= j < upto,
        ps[j].name_view() is Some,
    ensures
        0 <= m < s.len(),
        s[m].name@ == ps[j].name_view().unwrap(),
{
    assert(name_present(s, ps, j));
    choose|m: int|
        #![trigger s[m]]
        0 <= m < s.len() && s[m].name@ == ps[j].name_view().unwrap()
}

/// Whether a package entry reflects a named project: same name, directory
/// and version.
pub open spec fn corresponds(e: Package, p: Project) -> bool {
    &&& p.name_view() is Some
    &&& e.name@ == p.name_view().unwrap()
    &&& e.dir@ == p.dir@
    &&& opt_version_eq(e.version, p.manifest.version)
}

/// Whether two optional versions agree at the view level.
pub open spec fn opt_version_eq(a: Option<Version>, b: Option<Version>) -> bool {
    match (a, b) {
        (Some(x), Some(y)) => crate::version::version_eq(x, y),
        (None, None) => true,
        _ => false,
    }
}

/// A package: a named project's directory, name and version.
#[derive(Debug)]
pub struct Package {
    /// The project directory relative to the workspace root.
    pub dir: String,
    /// The package name.
    pub name: String,
    /// The package version, if the manifest carries one.
    pub version: Option<Version>,
}

/// Whether the package list is strictly sorted by name.
pub open spec fn names_sorted(ps: Seq<Package>) -> bool {
    forall|i: int, j: int| 0 <= i < j < ps.len() ==> chars_lt(
        #[trigger] ps[i].name@,
        #[trigger] ps[j].name@,
    )
}

/// Inserts a project in directory order. Yields true when a project in
/// the same directory was replaced, false when the project was inserted.
fn insert_project(list: &mut Vec<Project>, p: Project) -> (replaced: bool)
    requires
        projects_sorted(old(list)@),
    ensures
        projects_sorted(final(list)@),
        replaced ==> (exists|k: int|
            0 <= k < old(list)@.len() && #[trigger] old(list)@[k].dir@ == p.dir@
                && final(list)@ == old(list)@.update(k, p)),
        !replaced ==> (exists|k: int|
            0 <= k <= old(list)@.len() && final(list)@ == #[trigger] old(list)@.insert(k, p)),
{
    let ghost model = p;
    let pc = str_chars(p.dir.as_str());
    let mut i: usize = 0;
    let n = list.len();
    while i < n
        invariant
            i <= n,
            n == list@.len(),
            *list == *old(list),
            projects_sorted(list@),
            pc@ == p.dir@,
            p == model,
            forall|j: int| 0 <= j < i ==> chars_lt(#[trigger] list@[j].dir@, p.dir@),
        decreases n - i,
    {
        let lc = str_chars(list[i].dir.as_str());
        let c = crate::version::chars_cmp(&lc, &pc);
        if c == 0 {
            // same directory: the later project replaces the earlier
            proof {
                crate::version::lemma_chars_lt_total(list@[i as int].dir@, model.dir@);
            }
            let ghost before = list@;
            list.set(i, p);
            proof {
                assert(list@ =~= before.update(i as int, model));
                assert(projects_sorted(list@)) by {
                    assert(forall|j: int| 0 <= j < before.len() && j != i
                        ==> #[trigger] list@[j].dir@ == before[j].dir@);
                    assert(list@[i as int].dir@ == before[i as int].dir@);
                }
            }
            return true;
        }
        if c == 1 {
            let ghost before = list@;
            list.insert(i, p);
            proof {
                lemma_project_insert_sorted(before, list@, i as int, model);
            }
            return false;
        }
        i = i + 1;
    }
    let ghost before = list@;
    list.insert(i, p);
    proof {
        lemma_project_insert_sorted(before, list@, i as int, model);
    }
    return false;
}

/// Inserting a project between its sorted neighbours keeps the list
/// sorted.
proof fn lemma_project_insert_sorted(before: Seq<Project>, after: Seq<Project>, i: int, p: Project)
    requires
        projects_sorted(before),
        0 <= i <= before.len(),
        after == before.insert(i, p),
        forall|j: int| 0 <= j < i ==> chars_lt(#[trigger] before[j].dir@, p.dir@),
        i < before.len() ==> chars_lt(p.dir@, before[i].dir@),
    ensures
        projects_sorted(after),
{
    before.insert_ensures(i, p);
    assert forall|a: int, b: int| 0 <= a < b < after.len() implies chars_lt(
        #[trigger] after[a].dir@,
        #[trigger] after[b].dir@,
    ) by {
        if a < i && b < i {
            assert(after[a].dir@ == before[a].dir@ && after[b].dir@ == before[b].dir@);
        } else if a < i && b == i {
            assert(after[a].dir@ == before[a].dir@);
        } else if a == i && b > i {
            assert(after[b].dir@ == before[b - 1].dir@);
            if b - 1 > i {
                crate::version::lemma_chars_lt_trans(p.dir@, before[i].dir@, before[b - 1].dir@);
            }
        } else if a < i && b > i {
            assert(after[a].dir@ == before[a].dir@ && after[b].dir@ == before[b - 1].dir@);
            if b - 1 == i {
            } else {
                assert(chars_lt(before[a].dir@, before[b - 1].dir@));
            }
        } else {
            assert(after[a].dir@ == before[a - 1].dir@ && after[b].dir@ == before[b - 1].dir@);
        }
    }
}

/// Inserts a package in name order. Yields true when a package with the
/// same name was replaced, false when the package was inserted.
fn insert_package(list: &mut Vec<Package>, p: Package) -> (replaced: bool)
    requires
        names_sorted(old(list)@),
    ensures
        names_sorted(final(list)@),
        replaced ==> (exists|k: int|
            0 <= k < old(list)@.len() && #[trigger] old(list)@[k].name@ == p.name@
                && final(list)@ == old(list)@.update(k, p)),
        !replaced ==> (exists|k: int|
            0 <= k <= old(list)@.len() && final(list)@ == #[trigger] old(list)@.insert(k, p)),
{
    let ghost model = p;
    let nc = str_chars(p.name.as_str());
    let mut i: usize = 0;
    let n = list.len();
    while i < n
        invariant
            i <= n,
            n == list@.len(),
            *list == *old(list),
            names_sorted(list@),
            nc@ == p.name@,
            p == model,
            forall|j: int| 0 <= j < i ==> chars_lt(#[trigger] list@[j].name@, p.name@),
        decreases n - i,
    {
        let lc = str_chars(list[i].name.as_str());
        let c = crate::version::chars_cmp(&lc, &nc);
        if c == 0 {
            proof {
                crate::version::lemma_chars_lt_total(list@[i as int].name@, model.name@);
            }
            let ghost before = list@;
            list.set(i, p);
            proof {
                assert(list@ =~= before.update(i as int, model));
                assert(names_sorted(list@)) by {
                    assert(forall|j: int| 0 <= j < before.len() && j != i
                        ==> #[trigger] list@[j].name@ == before[j].name@);
                    assert(list@[i as int].name@ == before[i as int].name@);
                }
            }
            return true;
        }
        if c == 1 {
            let ghost before = list@;
            list.insert(i, p);
            proof {
                lemma_package_insert_sorted(before, list@, i as int, model);
            }
            return false;
        }
        i = i + 1;
    }
    let ghost before = list@;
    list.insert(i, p);
    proof {
        lemma_package_insert_sorted(before, list@, i as int, model);
    }
    return false;
}

/// Optional-version equality is reflexive.
proof fn lemma_opt_version_eq_refl(v: Option<Version>)
    ensures
        opt_version_eq(v, v),
{
}

/// Inserting a package between its sorted neighbours keeps the list
/// sorted.
proof fn lemma_package_insert_sorted(before: Seq<Package>, after: Seq<Package>, i: int, p: Package)
    requires
        names_sorted(before),
        0 <= i <= before.len(),
        after == before.insert(i, p),
        forall|j: int| 0 <= j < i ==> chars_lt(#[trigger] before[j].name@, p.name@),
        i < before.len() ==> chars_lt(p.name@, before[i].name@),
    ensures
        names_sorted(after),
{
    before.insert_ensures(i, p);
    assert forall|a: int, b: int| 0 <= a < b < after.len() implies chars_lt(
        #[trigger] after[a].name@,
        #[trigger] after[b].name@,
    ) by {
        if a < i && b < i {
            assert(after[a].name@ == before[a].name@ && after[b].name@ == before[b].name@);
        } else if a < i && b == i {
            assert(after[a].name@ == before[a].name@);
        } else if a == i && b > i {
            assert(after[b].name@ == before[b - 1].name@);
            if b - 1 > i {
                crate::version::lemma_chars_lt_trans(p.name@, before[i].name@, before[b - 1].name@);
            }
        } else if a < i && b > i {
            assert(after[a].name@ == before[a].name@ && after[b].name@ == before[b - 1].name@);
            if b - 1 == i {
            } else {
                assert(chars_lt(before[a].name@, before[b - 1].name@));
            }
        } else {
            assert(after[a].name@ == before[a - 1].name@ && after[b].name@ == before[b - 1].name@);
        }
    }
}

// ------------------------------------------------------------------------
// Version sets
// ------------------------------------------------------------------------

/// The next versions of the packages to release, keyed by package name.
pub struct Versions {
    /// Package names and their next versions, in package order.
    pub items: Vec<(String, Version)>,
}

impl Versions {
    /// Returns the next version recorded for a package name, if any: the
    /// first entry with that name.
    pub fn get(&self, name: &str) -> (r: Option<&Version>)
        ensures
            match r {
                Some(v) => (exists|k: int|
                    0 <= k < self.items@.len() && #[trigger] self.items@[k].0@ == name@
                        && self.items@[k].1 == *v),
                None => forall|k: int| 0 <= k < self.items@.len()
                    ==> #[trigger] self.items@[k].0@ != name@,
            },
    {
        let nc = str_chars(name);
        let mut k: usize = 0;
        while k < self.items.len()
            invariant
                k <= self.items@.len(),
                nc@ == name@,
                forall|j: int| 0 <= j < k ==> #[trigger] self.items@[j].0@ != name@,
            decreases self.items@.len() - k,
        {
            if crate::change::range_eq_str(&nc, 0, nc.len(), self.items[k].0.as_str()) {
                proof {
                    assert(nc@.subrange(0, nc@.len() as int) =~= name@);
                }
                return Some(&self.items[k].1);
            }
            proof {
                assert(nc@.subrange(0, nc@.len() as int) =~= name@);
            }
            k = k + 1;
        }
        None
    }
}

/// The expected version entries from `i` on: each package whose increment
/// slot is set and whose manifest carries a version contributes its name
/// and the bumped version.
pub open spec fn next_items(
    pkgs: Seq<Package>,
    incs: Seq<Option<Increment>>,
    i: int,
) -> Seq<(Seq<char>, Version)>
    decreases pkgs.len() - i when 0 <= i
{
    if i >= pkgs.len() {
        Seq::empty()
    } else {
        let rest = next_items(pkgs, incs, i + 1);
        if i < incs.len() && incs[i] is Some && pkgs[i].version is Some {
            seq![
                (pkgs[i].name@, crate::version::bump_spec(
                    pkgs[i].version.unwrap(),
                    incs[i].unwrap(),
                )),
            ] + rest
        } else {
            rest
        }
    }
}

/// Whether a computed entry realises an expected one: same name, the
/// bumped triple, and cleared pre-release and build metadata.
pub open spec fn entry_matches(e: (String, Version), m: (Seq<char>, Version)) -> bool {
    &&& e.0@ == m.0
    &&& e.1.major == m.1.major
    &&& e.1.minor == m.1.minor
    &&& e.1.patch == m.1.patch
    &&& e.1.pre@.len() == 0
    &&& e.1.build@.len() == 0
}

/// Computes the next version of every package whose increment slot is set,
/// pairing the increments with the name-sorted package list.
pub fn versions_from(packages: &Vec<Package>, increments: &Vec<Option<Increment>>) -> (r: Versions)
    ensures
        r.items@.len() == next_items(packages@, increments@, 0).len(),
        forall|k: int| 0 <= k < r.items@.len() ==> entry_matches(
            #[trigger] r.items@[k],
            next_items(packages@, increments@, 0)[k],
        ),
{
    let mut items: Vec<(String, Version)> = Vec::new();
    let n = packages.len();
    let mut i: usize = n;
    // build from the back so each step prepends, as the expected list does
    while i > 0
        invariant
            i <= n,
            n == packages@.len(),
            items@.len() == next_items(packages@, increments@, i as int).len(),
            forall|k: int| 0 <= k < items@.len() ==> entry_matches(
                #[trigger] items@[k],
                next_items(packages@, increments@, i as int)[k],
            ),
        decreases i,
    {
        i = i - 1;
        let ghost expected = next_items(packages@, increments@, i as int);
        let ghost rest = next_items(packages@, increments@, i + 1);
        let take: Option<Increment> = if i < increments.len() {
            increments[i]
        } else {
            None
        };
        match take {
            Some(inc) => {
                match packages[i].version.as_ref() {
                    Some(version) => {
                        let nm = clone_string(&packages[i].name);
                        let next = version.bump(inc);
                        let ghost before = items@;
                        items.insert(0, (nm, next));
                        proof {
                            before.insert_ensures(0, items@[0]);
                            assert(expected =~= seq![
                                (packages@[i as int].name@, crate::version::bump_spec(
                                    packages@[i as int].version.unwrap(),
                                    increments@[i as int].unwrap(),
                                )),
                            ] + rest);
                            assert(forall|k: int| 1 <= k < items@.len() ==> items@[k]
                                == #[trigger] before[k - 1]);
                            assert(entry_matches(items@[0], expected[0]));
                            assert forall|k: int| 0 <= k < items@.len() implies entry_matches(
                                #[trigger] items@[k],
                                expected[k],
                            ) by {
                                if k > 0 {
                                    assert(expected[k] == rest[k - 1]);
                                    assert(entry_matches(before[k - 1], rest[k - 1]));
                                }
                            }
                        }
                    },
                    None => {
                        proof {
                            assert(expected =~= rest);
                        }
                    },
                }
            },
            None => {
                proof {
                    assert(expected =~= rest);
                }
            },
        }
    }
    Versions { items }
}

} // verus!
