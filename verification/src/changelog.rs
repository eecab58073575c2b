//! Changelogs: a projection of a changeset grouped by category, breaking
//! changes first, rendered as Markdown.

use vstd::prelude::*;

use crate::change::{refs_items_from, Change, Kind};
use crate::changeset::Changeset;
use crate::text::{chars_to_string, clone_string, str_chars};

verus! {

// ------------------------------------------------------------------------
// Categories
// ------------------------------------------------------------------------

/// A changelog category, in presentation order.
#[derive(Clone, Copy, Debug, PartialEq, Eq, Structural)]
pub enum Category {
    /// Breaking changes.
    Breaking,
    /// Features.
    Feature,
    /// Bug fixes.
    Fix,
    /// Performance improvements.
    Performance,
    /// Refactorings.
    Refactor,
}

/// The category of a change: breaking changes always count as breaking,
/// and only release-relevant kinds have a category at all.
pub open spec fn category_of(kind: Kind, breaking: bool) -> Option<Category> {
    if breaking {
        Some(Category::Breaking)
    } else {
        match kind {
            Kind::Feature => Some(Category::Feature),
            Kind::Fix => Some(Category::Fix),
            Kind::Performance => Some(Category::Performance),
            Kind::Refactor => Some(Category::Refactor),
            _ => None,
        }
    }
}

impl Category {
    /// The category of a change, as `category_of` states it.
    pub fn from_change(change: &Change) -> (r: Option<Category>)
        ensures
            r == category_of(change.kind, change.is_breaking),
    {
        if change.is_breaking() {
            Some(Category::Breaking)
        } else {
            match change.kind() {
                Kind::Feature => Some(Category::Feature),
                Kind::Fix => Some(Category::Fix),
                Kind::Performance => Some(Category::Performance),
                Kind::Refactor => Some(Category::Refactor),
                _ => None,
            }
        }
    }

    /// The section heading of the category.
    pub open spec fn heading_text(self) -> Seq<char> {
        match self {
            Category::Breaking => "Breaking changes"@,
            Category::Feature => "Features"@,
            Category::Fix => "Bug fixes"@,
            Category::Performance => "Performance improvements"@,
            Category::Refactor => "Refactorings"@,
        }
    }

    /// Returns the section heading of the category.
    pub fn heading(self) -> (r: &'static str)
        ensures
            r@ == self.heading_text(),
    {
        match self {
            Category::Breaking => "Breaking changes",
            Category::Feature => "Features",
            Category::Fix => "Bug fixes",
            Category::Performance => "Performance improvements",
            Category::Refactor => "Refactorings",
        }
    }
}

// ------------------------------------------------------------------------
// Items and the changelog
// ------------------------------------------------------------------------

/// One changelog line: a short commit id, the affected scope names, the
/// cleaned summary, and the issues named in the commit body.
#[derive(Debug)]
pub struct Item {
    /// The short commit identifier.
    pub id: String,
    /// The names of the affected scopes.
    pub scopes: Vec<String>,
    /// The cleaned change summary.
    pub summary: String,
    /// The issue numbers, ascending.
    pub issues: Vec<u32>,
}

/// A changelog: the items of each category, breaking changes first.
#[derive(Debug)]
pub struct Changelog {
    /// Breaking changes.
    pub breaking: Vec<Item>,
    /// Features.
    pub feature: Vec<Item>,
    /// Bug fixes.
    pub fix: Vec<Item>,
    /// Performance improvements.
    pub performance: Vec<Item>,
    /// Refactorings.
    pub refactor: Vec<Item>,
}

/// The bold scope list of an item, from `idx` on: `__a__, __b__`.
pub open spec fn scopes_text(names: Seq<String>, idx: int) -> Seq<char>
    decreases names.len() - idx when 0 <= idx
{
    if idx >= names.len() {
        Seq::empty()
    } else {
        seq!['_', '_'] + names[idx]@ + seq!['_', '_'] + (if idx + 1 < names.len() {
            seq![',', ' ']
        } else {
            Seq::empty()
        }) + scopes_text(names, idx + 1)
    }
}

/// The text of one item: `<id>[ <scopes>] - <summary>[ (#a, #b)]`, with an
/// en dash between the head and the summary.
pub open spec fn item_text(it: Item) -> Seq<char> {
    it.id@ + (if it.scopes@.len() > 0 {
        seq![' '] + scopes_text(it.scopes@, 0)
    } else {
        Seq::empty()
    }) + seq![' ', '\u{2013}', ' '] + it.summary@ + (if it.issues@.len() > 0 {
        seq![' ', '('] + refs_items_from(it.issues@, 0) + seq![')']
    } else {
        Seq::empty()
    })
}

/// The item lines of a section from `idx` on, each on its own line.
pub open spec fn items_text(items: Seq<Item>, idx: int) -> Seq<char>
    decreases items.len() - idx when 0 <= idx
{
    if idx >= items.len() {
        Seq::empty()
    } else {
        seq!['\n', '-', ' '] + item_text(items[idx]) + items_text(items, idx + 1)
    }
}

/// The text of a section: empty when it has no items, else a blank line,
/// the heading, and the item lines.
pub open spec fn section_text(cat: Category, items: Seq<Item>) -> Seq<char> {
    if items.len() == 0 {
        Seq::empty()
    } else {
        seq!['\n', '\n', '#', '#', '#', ' '] + cat.heading_text() + seq!['\n'] + items_text(
            items,
            0,
        )
    }
}

/// The Markdown text of a changelog: empty when it has no items.
pub open spec fn changelog_text(c: Changelog) -> Seq<char> {
    if c.breaking@.len() == 0 && c.feature@.len() == 0 && c.fix@.len() == 0 && c.performance@.len()
        == 0 && c.refactor@.len() == 0 {
        Seq::empty()
    } else {
        "## Changelog"@ + section_text(Category::Breaking, c.breaking@) + section_text(
            Category::Feature,
            c.feature@,
        ) + section_text(Category::Fix, c.fix@) + section_text(
            Category::Performance,
            c.performance@,
        ) + section_text(Category::Refactor, c.refactor@)
    }
}

impl Changelog {
    /// Creates an empty changelog.
    pub fn new() -> (r: Changelog)
        ensures
            r.breaking@.len() == 0,
            r.feature@.len() == 0,
            r.fix@.len() == 0,
            r.performance@.len() == 0,
            r.refactor@.len() == 0,
    {
        Changelog {
            breaking: Vec::new(),
            feature: Vec::new(),
            fix: Vec::new(),
            performance: Vec::new(),
            refactor: Vec::new(),
        }
    }

    /// Returns the number of items.
    pub fn len(&self) -> (r: usize)
        requires
            self.breaking@.len() + self.feature@.len() + self.fix@.len() + self.performance@.len()
                + self.refactor@.len() <= usize::MAX,
        ensures
            r == self.breaking@.len() + self.feature@.len() + self.fix@.len()
                + self.performance@.len() + self.refactor@.len(),
    {
        self.breaking.len() + self.feature.len() + self.fix.len() + self.performance.len()
            + self.refactor.len()
    }

    /// Returns whether the changelog has no items.
    pub fn is_empty(&self) -> (r: bool)
        ensures
            r == (self.breaking@.len() == 0 && self.feature@.len() == 0 && self.fix@.len() == 0
                && self.performance@.len() == 0 && self.refactor@.len() == 0),
    {
        self.breaking.len() == 0 && self.feature.len() == 0 && self.fix.len() == 0
            && self.performance.len() == 0 && self.refactor.len() == 0
    }

    /// Adds an item under a category: the item goes to the end of that
    /// category's list and every other list stays.
    pub fn add(&mut self, category: Category, item: Item)
        ensures
            match category {
                Category::Breaking => final(self).breaking@ == old(self).breaking@.push(item)
                    && final(self).feature@ == old(self).feature@ && final(self).fix@ == old(self).fix@ && final(self).performance@ == old(self).performance@
                    && final(self).refactor@ == old(self).refactor@,
                Category::Feature => final(self).feature@ == old(self).feature@.push(item)
                    && final(self).breaking@ == old(self).breaking@ && final(self).fix@ == old(self).fix@ && final(self).performance@ == old(self).performance@
                    && final(self).refactor@ == old(self).refactor@,
                Category::Fix => final(self).fix@ == old(self).fix@.push(item) && final(self).breaking@ == old(self).breaking@ && final(self).feature@ == old(self).feature@
                    && final(self).performance@ == old(self).performance@ && final(self).refactor@
                    == old(self).refactor@,
                Category::Performance => final(self).performance@ == old(self).performance@.push(
                    item,
                ) && final(self).breaking@ == old(self).breaking@ && final(self).feature@ == old(self).feature@ && final(self).fix@ == old(self).fix@ && final(self).refactor@ == old(self).refactor@,
                Category::Refactor => final(self).refactor@ == old(self).refactor@.push(item)
                    && final(self).breaking@ == old(self).breaking@ && final(self).feature@ == old(self).feature@ && final(self).fix@ == old(self).fix@ && final(self).performance@ == old(self).performance@,
            },
    {
        match category {
            Category::Breaking => self.breaking.push(item),
            Category::Feature => self.feature.push(item),
            Category::Fix => self.fix.push(item),
            Category::Performance => self.performance.push(item),
            Category::Refactor => self.refactor.push(item),
        }
    }

    /// Renders the changelog as Markdown, exactly as `changelog_text`
    /// states it.
    pub fn to_markdown(&self) -> (r: String)
        ensures
            r@ == changelog_text(*self),
    {
        if self.is_empty() {
            let empty: Vec<char> = Vec::new();
            proof {
                assert(empty@ =~= changelog_text(*self));
            }
            return chars_to_string(&empty);
        }
        let mut out: Vec<char> = Vec::new();
        crate::change::push_str("## Changelog", &mut out);
        push_section(Category::Breaking, &self.breaking, &mut out);
        push_section(Category::Feature, &self.feature, &mut out);
        push_section(Category::Fix, &self.fix, &mut out);
        push_section(Category::Performance, &self.performance, &mut out);
        push_section(Category::Refactor, &self.refactor, &mut out);
        proof {
            assert(out@ =~= changelog_text(*self));
        }
        chars_to_string(&out)
    }
}

/// Appends the text of one section.
fn push_section(cat: Category, items: &Vec<Item>, out: &mut Vec<char>)
    ensures
        final(out)@ == old(out)@ + section_text(cat, items@),
{
    if items.len() == 0 {
        proof {
            assert(out@ =~= old(out)@ + section_text(cat, items@));
        }
        return ;
    }
    out.push('\n');
    out.push('\n');
    out.push('#');
    out.push('#');
    out.push('#');
    out.push(' ');
    crate::change::push_str(cat.heading(), out);
    out.push('\n');
    let ghost head = out@;
    push_items(items, 0, out);
    proof {
        assert(out@ =~= old(out)@ + section_text(cat, items@));
    }
}

/// Appends the item lines from `idx` on.
fn push_items(items: &Vec<Item>, idx: usize, out: &mut Vec<char>)
    requires
        idx <= items@.len(),
    ensures
        final(out)@ == old(out)@ + items_text(items@, idx as int),
    decreases items@.len() - idx,
{
    if idx >= items.len() {
        proof {
            assert(out@ =~= old(out)@ + items_text(items@, idx as int));
        }
        return ;
    }
    out.push('\n');
    out.push('-');
    out.push(' ');
    push_item(&items[idx], out);
    push_items(items, idx + 1, out);
    proof {
        assert(out@ =~= old(out)@ + items_text(items@, idx as int));
    }
}

/// Appends the text of one item.
fn push_item(it: &Item, out: &mut Vec<char>)
    ensures
        final(out)@ == old(out)@ + item_text(*it),
{
    let idc = str_chars(it.id.as_str());
    crate::change::push_chars(&idc, out);
    if it.scopes.len() > 0 {
        out.push(' ');
        push_scopes(&it.scopes, 0, out);
    }
    out.push(' ');
    out.push('\u{2013}');
    out.push(' ');
    let sc = str_chars(it.summary.as_str());
    crate::change::push_chars(&sc, out);
    if it.issues.len() > 0 {
        out.push(' ');
        out.push('(');
        crate::change::push_refs(&it.issues, 0, out);
        out.push(')');
    }
    proof {
        assert(out@ =~= old(out)@ + item_text(*it));
    }
}

/// Appends the bold scope names from `idx` on.
fn push_scopes(names: &Vec<String>, idx: usize, out: &mut Vec<char>)
    requires
        idx <= names@.len(),
    ensures
        final(out)@ == old(out)@ + scopes_text(names@, idx as int),
    decreases names@.len() - idx,
{
    if idx >= names.len() {
        proof {
            assert(out@ =~= old(out)@ + scopes_text(names@, idx as int));
        }
        return ;
    }
    out.push('_');
    out.push('_');
    let nc = str_chars(names[idx].as_str());
    crate::change::push_chars(&nc, out);
    out.push('_');
    out.push('_');
    if idx + 1 < names.len() {
        out.push(',');
        out.push(' ');
    }
    push_scopes(names, idx + 1, out);
    proof {
        assert(out@ =~= old(out)@ + scopes_text(names@, idx as int));
    }
}

/// The items of one category of a changelog.
pub open spec fn cat_list(log: Changelog, c: Category) -> Seq<Item> {
    match c {
        Category::Breaking => log.breaking@,
        Category::Feature => log.feature@,
        Category::Fix => log.fix@,
        Category::Performance => log.performance@,
        Category::Refactor => log.refactor@,
    }
}

/// The revisions of one category among the first `i`, in order.
pub open spec fn cat_prefix(
    revs: Seq<crate::changeset::Revision>,
    i: int,
    c: Category,
) -> Seq<crate::changeset::Revision>
    decreases i when i >= 0
{
    if i <= 0 {
        Seq::empty()
    } else {
        cat_prefix(revs, i - 1, c) + (if category_of(
            revs[i - 1].change.kind,
            revs[i - 1].change.is_breaking,
        ) == Some(c) {
            seq![revs[i - 1]]
        } else {
            Seq::empty()
        })
    }
}

/// The names of the scopes a revision touches, in index order, skipping
/// any index out of range of the scope set.
pub open spec fn names_upto(
    idxs: Seq<usize>,
    entries: Seq<crate::scopes::Scope>,
    t: int,
) -> Seq<Seq<char>>
    decreases t when t >= 0
{
    if t <= 0 {
        Seq::empty()
    } else {
        names_upto(idxs, entries, t - 1) + (if (idxs[t - 1] as int) < entries.len() {
            seq![entries[idxs[t - 1] as int].name@]
        } else {
            Seq::empty()
        })
    }
}

/// The views of a list of strings.
pub open spec fn str_views(ss: Seq<String>) -> Seq<Seq<char>> {
    ss.map_values(|x: String| x@)
}

/// Whether a changelog item renders the given revision over the given
/// scope set: the short commit id, the touched scopes' names, the cleaned
/// summary and the body issues.
pub open spec fn item_matches(
    it: Item,
    rev: crate::changeset::Revision,
    entries: Seq<crate::scopes::Scope>,
) -> bool {
    &&& it.id@ == (if rev.commit.id@.len() <= 7 {
        rev.commit.id@
    } else {
        rev.commit.id@.subrange(0, 7)
    })
    &&& str_views(it.scopes@) == names_upto(rev.scopes@, entries, rev.scopes@.len() as int)
    &&& it.summary@ == rev.change.summary@
    &&& it.issues@ == rev.issues@
}

impl Changeset {
    /// Projects the changeset onto a changelog: every revision whose
    /// change has a category contributes one item under that category, in
    /// revision order, rendering the short commit id, the affected scope
    /// names, the cleaned summary and the body issues.
    pub fn to_changelog(&self) -> (r: Changelog)
        ensures
            forall|c: Category| #![trigger cat_list(r, c)] cat_list(r, c).len() == cat_prefix(
                self.revisions@,
                self.revisions@.len() as int,
                c,
            ).len() && (forall|k: int|
                0 <= k < cat_list(r, c).len() ==> item_matches(
                    #[trigger] cat_list(r, c)[k],
                    cat_prefix(self.revisions@, self.revisions@.len() as int, c)[k],
                    self.scopes.entries@,
                )),
    {
        let mut log = Changelog::new();
        let mut i: usize = 0;
        while i < self.revisions.len()
            invariant
                i <= self.revisions@.len(),
                forall|c: Category| #![trigger cat_list(log, c)] cat_list(log, c).len()
                    == cat_prefix(self.revisions@, i as int, c).len() && (forall|k: int|
                    0 <= k < cat_list(log, c).len() ==> item_matches(
                        #[trigger] cat_list(log, c)[k],
                        cat_prefix(self.revisions@, i as int, c)[k],
                        self.scopes.entries@,
                    )),
            decreases self.revisions@.len() - i,
        {
            let revision = &self.revisions[i];
            match Category::from_change(&revision.change) {
                Some(category) => {
                    // collect the names of the affected scopes
                    let mut names: Vec<String> = Vec::new();
                    let mut t: usize = 0;
                    while t < revision.scopes.len()
                        invariant
                            t <= revision.scopes@.len(),
                            revision == &self.revisions@[i as int],
                            str_views(names@) == names_upto(
                                revision.scopes@,
                                self.scopes.entries@,
                                t as int,
                            ),
                        decreases revision.scopes@.len() - t,
                    {
                        let index = revision.scopes[t];
                        let ghost before_names = names@;
                        if index < self.scopes.len() {
                            names.push(clone_string(self.scopes.name_at(index)));
                            proof {
                                assert(str_views(names@) =~= str_views(before_names) + seq![
                                    self.scopes.entries@[index as int].name@,
                                ]);
                            }
                        }
                        t = t + 1;
                    }
                    proof {
                        assert(str_views(names@) == names_upto(
                            revision.scopes@,
                            self.scopes.entries@,
                            revision.scopes@.len() as int,
                        ));
                    }
                    let mut issues: Vec<u32> = Vec::new();
                    let mut q: usize = 0;
                    while q < revision.issues.len()
                        invariant
                            q <= revision.issues@.len(),
                            revision == &self.revisions@[i as int],
                            issues@ == revision.issues@.subrange(0, q as int),
                        decreases revision.issues@.len() - q,
                    {
                        issues.push(revision.issues[q]);
                        proof {
                            assert(revision.issues@.subrange(0, q + 1) =~= revision.issues@
                                .subrange(0, q as int) + seq![revision.issues@[q as int]]);
                        }
                        q = q + 1;
                    }
                    proof {
                        assert(issues@ =~= revision.issues@);
                    }
                    let item = Item {
                        id: revision.commit.short_id(),
                        scopes: names,
                        summary: clone_string(&revision.change.summary),
                        issues,
                    };
                    let ghost before = log;
                    let ghost itemg = item;
                    proof {
                        assert(item_matches(itemg, self.revisions@[i as int], self.scopes.entries@));
                    }
                    log.add(category, item);
                    proof {
                        assert forall|c: Category| #![trigger cat_list(log, c)] cat_list(
                            log,
                            c,
                        ).len() == cat_prefix(self.revisions@, i + 1, c).len() && (forall|k: int|
                            0 <= k < cat_list(log, c).len() ==> item_matches(
                                #[trigger] cat_list(log, c)[k],
                                cat_prefix(self.revisions@, i + 1, c)[k],
                                self.scopes.entries@,
                            )) by {
                            if c == category {
                                assert(cat_prefix(self.revisions@, i + 1, c) =~= cat_prefix(
                                    self.revisions@,
                                    i as int,
                                    c,
                                ) + seq![self.revisions@[i as int]]);
                                assert(cat_list(log, c) =~= cat_list(before, c).push(itemg));
                                assert forall|k: int| 0 <= k < cat_list(log, c).len()
                                    implies item_matches(
                                    #[trigger] cat_list(log, c)[k],
                                    cat_prefix(self.revisions@, i + 1, c)[k],
                                    self.scopes.entries@,
                                ) by {
                                    if k < cat_list(before, c).len() {
                                        assert(cat_list(log, c)[k] == cat_list(before, c)[k]);
                                        assert(cat_prefix(self.revisions@, i + 1, c)[k]
                                            == cat_prefix(self.revisions@, i as int, c)[k]);
                                    } else {
                                        assert(cat_list(log, c)[k] == itemg);
                                        assert(cat_prefix(self.revisions@, i + 1, c)[k]
                                            == self.revisions@[i as int]);
                                    }
                                }
                            } else {
                                assert(cat_prefix(self.revisions@, i + 1, c) =~= cat_prefix(
                                    self.revisions@,
                                    i as int,
                                    c,
                                ));
                                assert(cat_list(log, c) =~= cat_list(before, c));
                            }
                        }
                    }
                },
                None => {
                    proof {
                        assert forall|c: Category| #![trigger cat_prefix(self.revisions@, i + 1, c)]
                            cat_prefix(self.revisions@, i + 1, c) =~= cat_prefix(
                            self.revisions@,
                            i as int,
                            c,
                        ) by {
                            assert(category_of(
                                self.revisions@[i as int].change.kind,
                                self.revisions@[i as int].change.is_breaking,
                            ) != Some(c));
                        }
                    }
                },
            }
            i = i + 1;
        }
        log
    }
}

} // verus!
