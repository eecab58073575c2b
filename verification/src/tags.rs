//! The repository version tag set: semver-shaped tags mapped to commit
//! identifiers, ordered by version, with commit-range derivation.

use vstd::prelude::*;

use crate::text::clone_string;
use crate::version::{
    lemma_version_lt_total, lemma_version_lt_trans, parse_version_spec, parse_version_str,
    skip_v, version_cmp, version_eq, version_lt, Version,
};

verus! {

/// Why a tag-set operation failed.
#[derive(Clone, Copy, Debug, PartialEq, Eq, Structural)]
pub enum TagError {
    /// A tag is not semver-shaped, or a queried version is unknown.
    Version,
}

/// A tagged version and the commit it points at.
#[derive(Debug)]
pub struct VersionTag {
    /// The version the tag names.
    pub version: Version,
    /// The commit identifier the tag points at.
    pub commit: String,
}

/// The version tag set, ascending by version.
#[derive(Debug)]
pub struct VersionTags {
    /// The tags, strictly ascending by version.
    pub tags: Vec<VersionTag>,
}

/// Whether the tag list is strictly ascending by version.
pub open spec fn tags_sorted(tags: Seq<VersionTag>) -> bool {
    forall|i: int, j: int| 0 <= i < j < tags.len() ==> version_lt(
        (#[trigger] tags[i]).version,
        (#[trigger] tags[j]).version,
    )
}

/// Whether an optional commit identifier names the given text.
pub open spec fn opt_commit_is(a: Option<String>, b: Option<Seq<char>>) -> bool {
    match (a, b) {
        (Some(x), Some(y)) => x@ == y,
        (None, None) => true,
        _ => false,
    }
}

/// A half-open commit range: from `start` (or the repository head when
/// absent) back to `end` exclusive (or the root when absent).
#[derive(Debug)]
pub struct CommitRange {
    /// The newest commit of the range, the head when absent.
    pub start: Option<String>,
    /// The commit just past the oldest of the range, the root when absent.
    pub end: Option<String>,
}

/// Inserts a tag in version order. Yields true when a tag with an equal
/// version was replaced, false when the tag was inserted.
fn insert_tag(list: &mut Vec<VersionTag>, t: VersionTag) -> (replaced: bool)
    requires
        tags_sorted(old(list)@),
    ensures
        tags_sorted(final(list)@),
        replaced ==> (exists|k: int|
            0 <= k < old(list)@.len() && version_eq((#[trigger] old(list)@[k]).version, t.version)
                && final(list)@ == old(list)@.update(k, t)),
        !replaced ==> (exists|k: int|
            0 <= k <= old(list)@.len() && final(list)@ == #[trigger] old(list)@.insert(k, t)),
{
    let ghost model = t;
    let mut i: usize = 0;
    let n = list.len();
    while i < n
        invariant
            i <= n,
            n == list@.len(),
            *list == *old(list),
            tags_sorted(list@),
            t == model,
            forall|j: int| 0 <= j < i ==> version_lt((#[trigger] list@[j]).version, t.version),
        decreases n - i,
    {
        let c = version_cmp(&list[i].version, &t.version);
        if c == 0 {
            proof {
                lemma_version_lt_total(list@[i as int].version, model.version);
            }
            let ghost before = list@;
            list.set(i, t);
            proof {
                assert(list@ =~= before.update(i as int, model));
                assert forall|a: int, b: int| 0 <= a < b < list@.len() implies version_lt(
                    (#[trigger] list@[a]).version,
                    (#[trigger] list@[b]).version,
                ) by {
                    if a != i && b != i {
                        assert(list@[a] == before[a] && list@[b] == before[b]);
                    } else if a == i {
                        assert(list@[b] == before[b]);
                        assert(version_lt(before[a].version, before[b].version));
                        lemma_eq_lt(before[a].version, model.version, before[b].version);
                    } else {
                        assert(list@[a] == before[a]);
                        assert(version_lt(before[a].version, before[b].version));
                        lemma_lt_eq(before[a].version, before[b].version, model.version);
                    }
                }
            }
            return true;
        }
        if c == 1 {
            let ghost before = list@;
            list.insert(i, t);
            proof {
                before.insert_ensures(i as int, model);
                assert forall|a: int, b: int| 0 <= a < b < list@.len() implies version_lt(
                    (#[trigger] list@[a]).version,
                    (#[trigger] list@[b]).version,
                ) by {
                    if a < i && b < i {
                        assert(list@[a] == before[a] && list@[b] == before[b]);
                    } else if a < i && b == i {
                        assert(list@[a] == before[a]);
                    } else if a == i && b > i {
                        assert(list@[b] == before[b - 1]);
                        if b - 1 > i {
                            lemma_version_lt_trans(
                                model.version,
                                before[i as int].version,
                                before[b - 1].version,
                            );
                        }
                    } else if a < i && b > i {
                        assert(list@[a] == before[a] && list@[b] == before[b - 1]);
                        if b - 1 == i {
                        } else {
                            assert(version_lt(before[a].version, before[b - 1].version));
                        }
                    } else {
                        assert(list@[a] == before[a - 1] && list@[b] == before[b - 1]);
                    }
                }
            }
            return false;
        }
        i = i + 1;
    }
    let ghost before = list@;
    list.push(t);
    proof {
        assert(list@ =~= before.insert(before.len() as int, model));
        assert(forall|j: int| 0 <= j < before.len() ==> list@[j] == #[trigger] before[j]);
        assert(list@[list@.len() - 1] == model);
    }
    return false;
}

/// Equal versions order the same way against any third.
proof fn lemma_eq_lt(a: Version, b: Version, c: Version)
    requires
        version_eq(a, b),
        version_lt(a, c),
    ensures
        version_lt(b, c),
{
}

proof fn lemma_lt_eq(a: Version, b: Version, c: Version)
    requires
        version_eq(b, c),
        version_lt(a, b),
    ensures
        version_lt(a, c),
{
}

/// Whether a tag-name/commit pair names the given version.
pub open spec fn pair_version_is(pair: (String, String), v: Version) -> bool {
    parse_version_spec(skip_v(pair.0@)) == Some((v.major, v.minor, v.patch, v.pre@, v.build@))
}

/// Whether a tag comes from the pairs below `upto`: some pair names its
/// version and supplies its commit, and no later pair names that version.
pub open spec fn tag_sourced(tag: VersionTag, pairs: Seq<(String, String)>, upto: int) -> bool {
    exists|k: int|
        #![trigger pairs[k]]
        0 <= k < upto && pair_version_is(pairs[k], tag.version) && tag.commit@ == pairs[k].1@ && (
        forall|k2: int| k < k2 < upto ==> !pair_version_is(#[trigger] pairs[k2], tag.version))
}

/// Whether some tag carries the version the `k`-th pair names.
pub open spec fn pair_covered(tags: Seq<VersionTag>, pairs: Seq<(String, String)>, k: int) -> bool {
    exists|t: int|
        #![trigger tags[t]]
        0 <= t < tags.len() && pair_version_is(pairs[k], tags[t].version)
}

/// One pair names only one version, up to version equality.
proof fn lemma_pair_version_unique(pair: (String, String), a: Version, b: Version)
    requires
        pair_version_is(pair, a),
        pair_version_is(pair, b),
    ensures
        version_eq(a, b),
{
}

/// Naming transfers across equal versions.
proof fn lemma_pair_version_transfer(pair: (String, String), a: Version, b: Version)
    requires
        pair_version_is(pair, a),
        version_eq(a, b),
    ensures
        pair_version_is(pair, b),
{
}


/// One build step of the tag set: inserting or replacing with the tag the
/// `k`-th pair names keeps every tag sourced and every pair covered.
proof fn lemma_from_pairs_step(
    before: Seq<VersionTag>,
    after: Seq<VersionTag>,
    pairs: Seq<(String, String)>,
    k: int,
    nt: VersionTag,
    replaced: bool,
)
    requires
        0 <= k < pairs.len(),
        tags_sorted(before),
        tags_sorted(after),
        pair_version_is(pairs[k], nt.version),
        nt.commit@ == pairs[k].1@,
        forall|t: int| 0 <= t < before.len() ==> tag_sourced(#[trigger] before[t], pairs, k),
        forall|j: int| 0 <= j < k ==> #[trigger] pair_covered(before, pairs, j),
        replaced ==> (exists|idx: int|
            0 <= idx < before.len() && version_eq((#[trigger] before[idx]).version, nt.version)
                && after == before.update(idx, nt)),
        !replaced ==> (exists|idx: int|
            0 <= idx <= before.len() && after == #[trigger] before.insert(idx, nt)),
    ensures
        forall|t: int| 0 <= t < after.len() ==> tag_sourced(#[trigger] after[t], pairs, k + 1),
        forall|j: int| 0 <= j < k + 1 ==> #[trigger] pair_covered(after, pairs, j),
{
    let idx: int = if replaced {
        choose|idx: int|
            0 <= idx < before.len() && version_eq((#[trigger] before[idx]).version, nt.version)
                && after == before.update(idx, nt)
    } else {
        choose|idx: int| 0 <= idx <= before.len() && after == #[trigger] before.insert(idx, nt)
    };
    if !replaced {
        before.insert_ensures(idx, nt);
    }
    assert(after[idx] == nt);
    assert forall|t: int| 0 <= t < after.len() implies tag_sourced(
        #[trigger] after[t],
        pairs,
        k + 1,
    ) by {
        if t == idx {
            assert(tag_sourced(nt, pairs, k + 1)) by {
                assert(0 <= k < k + 1 && pair_version_is(pairs[k], nt.version) && nt.commit@
                    == pairs[k].1@);
            }
        } else {
            let ot: int = if replaced || t < idx {
                t
            } else {
                t - 1
            };
            assert(after[t] == before[ot]);
            assert(tag_sourced(before[ot], pairs, k));
            let k0 = choose|k0: int|
                #![trigger pairs[k0]]
                0 <= k0 < k && pair_version_is(pairs[k0], before[ot].version) && before[ot].commit@
                    == pairs[k0].1@ && (forall|k2: int|
                    k0 < k2 < k ==> !pair_version_is(#[trigger] pairs[k2], before[ot].version));
            // the k-th pair cannot name this tag's version: two distinct
            // positions of a sorted list never carry equal versions
            if pair_version_is(pairs[k], before[ot].version) {
                lemma_pair_version_unique(pairs[k], before[ot].version, nt.version);
                lemma_version_lt_total(after[t].version, after[idx].version);
                if t < idx {
                    assert(version_lt(after[t].version, after[idx].version));
                } else {
                    assert(version_lt(after[idx].version, after[t].version));
                }
                assert(false);
            }
            assert(tag_sourced(after[t], pairs, k + 1)) by {
                assert(0 <= k0 < k + 1 && pair_version_is(pairs[k0], after[t].version)
                    && after[t].commit@ == pairs[k0].1@);
                assert forall|k2: int| k0 < k2 < k + 1 implies !pair_version_is(
                    #[trigger] pairs[k2],
                    after[t].version,
                ) by {
                    if k2 < k {
                        assert(!pair_version_is(pairs[k2], before[ot].version));
                    }
                }
            }
        }
    }
    assert forall|j: int| 0 <= j < k + 1 implies #[trigger] pair_covered(after, pairs, j) by {
        if j == k {
            assert(pair_covered(after, pairs, j)) by {
                assert(0 <= idx < after.len() && pair_version_is(pairs[j], after[idx].version));
            }
        } else {
            assert(pair_covered(before, pairs, j));
            let t0 = choose|t0: int|
                #![trigger before[t0]]
                0 <= t0 < before.len() && pair_version_is(pairs[j], before[t0].version);
            if replaced {
                if t0 == idx {
                    lemma_pair_version_transfer(pairs[j], before[idx].version, nt.version);
                    assert(pair_version_is(pairs[j], after[idx].version));
                    assert(pair_covered(after, pairs, j)) by {
                        assert(0 <= idx < after.len());
                    }
                } else {
                    assert(after[t0] == before[t0]);
                    assert(pair_covered(after, pairs, j)) by {
                        assert(pair_version_is(pairs[j], after[t0].version));
                    }
                }
            } else {
                let nt0: int = if t0 < idx {
                    t0
                } else {
                    t0 + 1
                };
                assert(after[nt0] == before[t0]);
                assert(pair_covered(after, pairs, j)) by {
                    assert(0 <= nt0 < after.len() && pair_version_is(
                        pairs[j],
                        after[nt0].version,
                    ));
                }
            }
        }
    }
}

impl VersionTags {
    /// Builds the tag set from tag names and commit identifiers. Every
    /// name must parse as a version after its `v` prefix; the result holds
    /// exactly the versions the pairs name, ascending, each mapped to the
    /// commit of the last pair naming it.
    pub fn from_pairs(pairs: &Vec<(String, String)>) -> (r: Result<VersionTags, TagError>)
        ensures
            match r {
                Ok(ts) => tags_sorted(ts.tags@) && (forall|k: int|
                    0 <= k < pairs@.len() ==> parse_version_spec(
                        skip_v(#[trigger] pairs@[k].0@),
                    ) is Some) && (forall|t: int| 0 <= t < ts.tags@.len() ==> tag_sourced(
                    #[trigger] ts.tags@[t],
                    pairs@,
                    pairs@.len() as int,
                )) && (forall|k: int| 0 <= k < pairs@.len() ==> #[trigger] pair_covered(
                    ts.tags@,
                    pairs@,
                    k,
                )),
                Err(e) => e == TagError::Version && (exists|k: int|
                    0 <= k < pairs@.len() && parse_version_spec(
                        skip_v(#[trigger] pairs@[k].0@),
                    ) is None),
            },
    {
        let mut tags: Vec<VersionTag> = Vec::new();
        let mut k: usize = 0;
        while k < pairs.len()
            invariant
                k <= pairs@.len(),
                tags_sorted(tags@),
                forall|j: int| 0 <= j < k ==> parse_version_spec(
                    skip_v(#[trigger] pairs@[j].0@),
                ) is Some,
                forall|t: int| 0 <= t < tags@.len() ==> tag_sourced(
                    #[trigger] tags@[t],
                    pairs@,
                    k as int,
                ),
                forall|j: int| 0 <= j < k ==> #[trigger] pair_covered(tags@, pairs@, j),
            decreases pairs@.len() - k,
        {
            match parse_version_str(pairs[k].0.as_str()) {
                Some(version) => {
                    let ghost vm = version;
                    proof {
                        assert(pair_version_is(pairs@[k as int], vm));
                    }
                    let commit = clone_string(&pairs[k].1);
                    let ghost before = tags@;
                    let ghost newtag = VersionTag { version: vm, commit: commit };
                    let replaced = insert_tag(&mut tags, VersionTag { version, commit });
                    proof {
                        lemma_from_pairs_step(before, tags@, pairs@, k as int, newtag, replaced);
                    }
                },
                None => {
                    return Err(TagError::Version);
                },
            }
            k = k + 1;
        }
        Ok(VersionTags { tags })
    }

    /// Returns the number of tagged versions.
    pub fn len(&self) -> (r: usize)
        ensures
            r == self.tags@.len(),
    {
        self.tags.len()
    }

    /// Returns whether there are any tagged versions.
    pub fn is_empty(&self) -> (r: bool)
        ensures
            r == (self.tags@.len() == 0),
    {
        self.tags.len() == 0
    }

    /// Returns the tag at an index, oldest first.
    pub fn tag_at(&self, index: usize) -> (r: &VersionTag)
        requires
            index < self.tags@.len(),
        ensures
            *r == self.tags@[index as int],
    {
        &self.tags[index]
    }

    /// Returns the index range of the tagged versions in `[lo, hi)`:
    /// every tag before it is below `lo`, every tag in it is at least
    /// `lo` and below `hi`, and every tag after it is at least `hi`.
    pub fn range(&self, lo: &Version, hi: &Version) -> (r: (usize, usize))
        requires
            tags_sorted(self.tags@),
        ensures
            r.0 <= r.1 <= self.tags@.len(),
            forall|t: int| 0 <= t < r.0 ==> version_lt((#[trigger] self.tags@[t]).version, *lo),
            forall|t: int|
                r.0 <= t < r.1 ==> !version_lt((#[trigger] self.tags@[t]).version, *lo)
                    && version_lt(self.tags@[t].version, *hi),
            forall|t: int| r.1 <= t < self.tags@.len() ==> !version_lt(
                (#[trigger] self.tags@[t]).version,
                *hi,
            ),
    {
        let n = self.tags.len();
        let mut a: usize = 0;
        while a < n && version_cmp(&self.tags[a].version, lo) == -1
            invariant
                a <= n,
                n == self.tags@.len(),
                tags_sorted(self.tags@),
                forall|t: int| 0 <= t < a ==> version_lt((#[trigger] self.tags@[t]).version, *lo),
            decreases n - a,
        {
            a = a + 1;
        }
        proof {
            if a < n {
                lemma_version_lt_total(self.tags@[a as int].version, *lo);
            }
        }
        let mut b: usize = a;
        while b < n && version_cmp(&self.tags[b].version, hi) == -1
            invariant
                a <= b <= n,
                n == self.tags@.len(),
                tags_sorted(self.tags@),
                a < n ==> !version_lt(self.tags@[a as int].version, *lo),
                forall|t: int| 0 <= t < a ==> version_lt((#[trigger] self.tags@[t]).version, *lo),
                forall|t: int|
                    a <= t < b ==> !version_lt((#[trigger] self.tags@[t]).version, *lo)
                        && version_lt(self.tags@[t].version, *hi),
            decreases n - b,
        {
            proof {
                if a < b && version_lt(self.tags@[b as int].version, *lo) {
                    lemma_version_lt_trans(
                        self.tags@[a as int].version,
                        self.tags@[b as int].version,
                        *lo,
                    );
                }
            }
            b = b + 1;
        }
        proof {
            assert forall|t: int| b <= t < n implies !version_lt(
                (#[trigger] self.tags@[t]).version,
                *hi,
            ) by {
                if b < n {
                    lemma_version_lt_total(self.tags@[b as int].version, *hi);
                    if t > b && version_lt(self.tags@[t].version, *hi) {
                        if version_lt(self.tags@[b as int].version, *hi) {
                        } else {
                            lemma_version_lt_trans(
                                self.tags@[b as int].version,
                                self.tags@[t].version,
                                *hi,
                            );
                        }
                    }
                }
            }
        }
        (a, b)
    }

    /// Returns the index of the tag with the given version, if any.
    pub fn position(&self, version: &Version) -> (r: Option<usize>)
        ensures
            match r {
                Some(i) => i < self.tags@.len() && version_eq(
                    self.tags@[i as int].version,
                    *version,
                ),
                None => forall|i: int| 0 <= i < self.tags@.len() ==> !version_eq(
                    (#[trigger] self.tags@[i]).version,
                    *version,
                ),
            },
    {
        let mut i: usize = 0;
        while i < self.tags.len()
            invariant
                i <= self.tags@.len(),
                forall|j: int| 0 <= j < i ==> !version_eq(
                    (#[trigger] self.tags@[j]).version,
                    *version,
                ),
            decreases self.tags@.len() - i,
        {
            let c = version_cmp(&self.tags[i].version, version);
            if c == 0 {
                return Some(i);
            }
            proof {
                lemma_version_lt_total(self.tags@[i as int].version, *version);
            }
            i = i + 1;
        }
        None
    }

    /// Returns the commit identifier tagged with the given version.
    pub fn get(&self, version: &Version) -> (r: Option<&String>)
        ensures
            match r {
                Some(c) => exists|i: int|
                    0 <= i < self.tags@.len() && version_eq(
                        (#[trigger] self.tags@[i]).version,
                        *version,
                    ) && self.tags@[i].commit@ == c@,
                None => forall|i: int| 0 <= i < self.tags@.len() ==> !version_eq(
                    (#[trigger] self.tags@[i]).version,
                    *version,
                ),
            },
    {
        match self.position(version) {
            Some(i) => Some(&self.tags[i].commit),
            None => None,
        }
    }

    /// Returns whether the tag set holds the given version.
    pub fn contains(&self, version: &Version) -> (r: bool)
        ensures
            r == (exists|i: int|
                0 <= i < self.tags@.len() && version_eq(
                    (#[trigger] self.tags@[i]).version,
                    *version,
                )),
    {
        match self.position(version) {
            Some(i) => {
                proof {
                    assert(version_eq(self.tags@[i as int].version, *version));
                }
                true
            },
            None => false,
        }
    }

    /// Derives the commit range of a version: from its commit back to the
    /// previous tagged version's, unbounded for the oldest tag. Without a
    /// version: from the head back to the newest tag, or everything when
    /// no tag exists. An unknown version is an error.
    pub fn commits(&self, version: Option<&Version>) -> (r: Result<CommitRange, TagError>)
        ensures
            match r {
                Ok(range) => match version {
                    Some(v) => (exists|i: int|
                        0 <= i < self.tags@.len() && version_eq(
                            (#[trigger] self.tags@[i]).version,
                            *v,
                        ) && opt_commit_is(range.start, Some(self.tags@[i].commit@)) && (if i == 0 {
                            range.end is None
                        } else {
                            opt_commit_is(range.end, Some(self.tags@[i - 1].commit@))
                        })),
                    None => if self.tags@.len() == 0 {
                        range.start is None && range.end is None
                    } else {
                        range.start is None && opt_commit_is(
                            range.end,
                            Some(self.tags@.last().commit@),
                        )
                    },
                },
                Err(e) => e == TagError::Version && version is Some && (forall|i: int|
                    0 <= i < self.tags@.len() ==> !version_eq(
                        (#[trigger] self.tags@[i]).version,
                        *version.unwrap(),
                    )),
            },
    {
        match version {
            Some(v) => {
                match self.position(v) {
                    Some(i) => {
                        let start = Some(clone_string(&self.tags[i].commit));
                        let end = if i == 0 {
                            None
                        } else {
                            Some(clone_string(&self.tags[i - 1].commit))
                        };
                        proof {
                            assert(version_eq(self.tags@[i as int].version, *v));
                        }
                        Ok(CommitRange { start, end })
                    },
                    None => Err(TagError::Version),
                }
            },
            None => {
                if self.tags.len() == 0 {
                    Ok(CommitRange { start: None, end: None })
                } else {
                    let last = self.tags.len() - 1;
                    Ok(CommitRange { start: None, end: Some(clone_string(&self.tags[last].commit)) })
                }
            },
        }
    }
}

} // verus!
