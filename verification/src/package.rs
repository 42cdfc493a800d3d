//! Package-level data: change status classification, the per-package diff
//! entry, its output order, and a simple package record with a set of
//! versions.

use vstd::prelude::*;

use crate::chars::lex_leq;
use crate::chars::str_leq;
use crate::span::Role;
use crate::version::string_eq;
use crate::version::version_views;

verus! {

/// How a package changed between the two snapshots.
#[derive(Clone, Copy, Debug, PartialEq, Eq, Structural)]
pub enum DiffStatus {
    Added,
    Removed,
    Changed,
}

impl DiffStatus {
    /// The position of this status in the fixed report order.
    pub open spec fn rank(self) -> int {
        match self {
            DiffStatus::Added => 0,
            DiffStatus::Removed => 1,
            DiffStatus::Changed => 2,
        }
    }

    /// The one-letter tag of this status.
    pub open spec fn letter(self) -> char {
        match self {
            DiffStatus::Added => 'A',
            DiffStatus::Removed => 'R',
            DiffStatus::Changed => 'C',
        }
    }

    /// The section header word of this status.
    pub open spec fn word(self) -> Seq<char> {
        match self {
            DiffStatus::Added => seq!['A', 'D', 'D', 'E', 'D'],
            DiffStatus::Removed => seq!['R', 'E', 'M', 'O', 'V', 'E', 'D'],
            DiffStatus::Changed => seq!['C', 'H', 'A', 'N', 'G', 'E', 'D'],
        }
    }

    /// The role that styles this status in the report.
    pub open spec fn role(self) -> Role {
        match self {
            DiffStatus::Added => Role::Added,
            DiffStatus::Removed => Role::Removed,
            DiffStatus::Changed => Role::Unchanged,
        }
    }

    /// The one-letter tag written before a package name.
    pub fn char(self) -> (c: char)
        ensures
            c == self.letter(),
    {
        match self {
            DiffStatus::Added => 'A',
            DiffStatus::Removed => 'R',
            DiffStatus::Changed => 'C',
        }
    }

    /// The rank of this status as a number.
    pub fn rank_value(self) -> (r: u8)
        ensures
            r as int == self.rank(),
    {
        match self {
            DiffStatus::Added => 0,
            DiffStatus::Removed => 1,
            DiffStatus::Changed => 2,
        }
    }
}

/// The status of a package from its deduplicated version lists, or nothing
/// when the package does not belong in the report.
pub open spec fn spec_status(old: Seq<Seq<char>>, new: Seq<Seq<char>>) -> Option<DiffStatus> {
    if old.len() == 0 && new.len() == 0 {
        None
    } else if old.len() == 0 {
        Some(DiffStatus::Added)
    } else if new.len() == 0 {
        Some(DiffStatus::Removed)
    } else if old != new {
        Some(DiffStatus::Changed)
    } else {
        None
    }
}

/// A package is added exactly when only the new side has versions, removed
/// exactly when only the old side has versions, changed exactly when both
/// sides have versions that differ, and absent exactly when the sides are
/// equal.
pub proof fn lemma_status_classification(old: Seq<Seq<char>>, new: Seq<Seq<char>>)
    ensures
        spec_status(old, new) == Some(DiffStatus::Added) <==> (old.len() == 0 && new.len() > 0),
        spec_status(old, new) == Some(DiffStatus::Removed) <==> (new.len() == 0 && old.len() > 0),
        spec_status(old, new) == Some(DiffStatus::Changed) <==> (old.len() > 0 && new.len() > 0
            && old != new),
        spec_status(old, new) is None <==> old == new,
        spec_status(old, new) is Some ==> old != new,
{
    if old.len() == 0 && new.len() == 0 {
        assert(old =~= new);
    }
}

/// Compares two version lists character for character.
pub fn version_lists_eq(a: &Vec<String>, b: &Vec<String>) -> (r: bool)
    ensures
        r == (version_views(a@) == version_views(b@)),
{
    if a.len() != b.len() {
        assert(version_views(a@).len() != version_views(b@).len());
        return false;
    }
    let mut i: usize = 0;
    while i < a.len()
        invariant
            i <= a@.len(),
            a@.len() == b@.len(),
            forall|j: int| 0 <= j < i ==> version_views(a@)[j] == version_views(b@)[j],
        decreases a@.len() - i,
    {
        if !string_eq(&a[i], &b[i]) {
            assert(version_views(a@)[i as int] != version_views(b@)[i as int]);
            return false;
        }
        i = i + 1;
    }
    proof {
        assert(version_views(a@) =~= version_views(b@));
    }
    true
}

/// Classifies a package from its deduplicated version lists.
pub fn classify(old: &Vec<String>, new: &Vec<String>) -> (r: Option<DiffStatus>)
    ensures
        r == spec_status(version_views(old@), version_views(new@)),
{
    if old.len() == 0 && new.len() == 0 {
        None
    } else if old.len() == 0 {
        Some(DiffStatus::Added)
    } else if new.len() == 0 {
        Some(DiffStatus::Removed)
    } else if !version_lists_eq(old, new) {
        Some(DiffStatus::Changed)
    } else {
        None
    }
}

/// One line of the report: a package, its deduplicated version lists on both
/// sides, and its status.
#[derive(Debug)]
pub struct PackageDiffEntry {
    pub name: String,
    pub old: Vec<String>,
    pub new: Vec<String>,
    pub status: DiffStatus,
}

/// The mathematical value of a `PackageDiffEntry`.
#[verifier::ext_equal]
pub struct EntryModel {
    pub name: Seq<char>,
    pub old: Seq<Seq<char>>,
    pub new: Seq<Seq<char>>,
    pub status: DiffStatus,
}

impl View for PackageDiffEntry {
    type V = EntryModel;

    open spec fn view(&self) -> EntryModel {
        EntryModel {
            name: self.name@,
            old: version_views(self.old@),
            new: version_views(self.new@),
            status: self.status,
        }
    }
}

pub open spec fn entries_view(es: Seq<PackageDiffEntry>) -> Seq<EntryModel> {
    es.map_values(|e: PackageDiffEntry| e@)
}

/// The report order: by status first, added before removed before changed,
/// then by name.
pub open spec fn entry_leq(a: EntryModel, b: EntryModel) -> bool {
    ||| a.status.rank() < b.status.rank()
    ||| (a.status.rank() == b.status.rank() && lex_leq(a.name, b.name))
}

/// Compares two entries in the report order.
pub fn entry_leq_exec(a: &PackageDiffEntry, b: &PackageDiffEntry) -> (r: bool)
    ensures
        r == entry_leq(a@, b@),
{
    let ra = a.status.rank_value();
    let rb = b.status.rank_value();
    if ra < rb {
        true
    } else if ra == rb {
        str_leq(a.name.as_str(), b.name.as_str())
    } else {
        false
    }
}

/// A package seen in one snapshot: its name and the distinct versions found
/// for it, plus whether it was reached only as a dependency.
#[derive(Debug)]
pub struct Package {
    pub name: String,
    pub versions: Vec<String>,
    pub is_dep: bool,
}

impl Package {
    /// The versions hold no duplicates.
    pub open spec fn wf(self) -> bool {
        forall|i: int, j: int|
            0 <= i < j < self.versions@.len() ==> version_views(self.versions@)[i] != version_views(
                self.versions@,
            )[j]
    }

    /// A package record with one version.
    pub fn new(name: String, version: String, is_dep: bool) -> (p: Package)
        ensures
            p.name@ == name@,
            version_views(p.versions@) =~= seq![version@],
            p.is_dep == is_dep,
            p.wf(),
    {
        let mut versions: Vec<String> = Vec::new();
        versions.push(version);
        Package { name, versions, is_dep }
    }

    /// Records one more version; a version already present is not added
    /// again.
    pub fn add_version(&mut self, version: String)
        requires
            old(self).wf(),
        ensures
            final(self).name == old(self).name,
            final(self).is_dep == old(self).is_dep,
            version_views(final(self).versions@) == if version_views(
                old(self).versions@,
            ).contains(version@) {
                version_views(old(self).versions@)
            } else {
                version_views(old(self).versions@).push(version@)
            },
            final(self).wf(),
    {
        let ghost prior = version_views(self.versions@);
        let mut i: usize = 0;
        while i < self.versions.len()
            invariant
                *self == *old(self),
                old(self).wf(),
                i <= self.versions@.len(),
                prior == version_views(self.versions@),
                prior.len() == self.versions@.len(),
                forall|j: int| 0 <= j < i ==> #[trigger] prior[j] != version@,
            decreases self.versions@.len() - i,
        {
            if string_eq(&self.versions[i], &version) {
                proof {
                    assert(prior[i as int] == self.versions@[i as int]@);
                    assert(prior.contains(version@)) by {
                        assert(prior[i as int] == version@);
                    }
                }
                return ;
            }
            i = i + 1;
        }
        assert(forall|j: int| 0 <= j < prior.len() ==> #[trigger] prior[j] != version@);
        assert(!prior.contains(version@));
        self.versions.push(version);
        proof {
            let post = version_views(self.versions@);
            assert(post =~= prior.push(version@));
            assert forall|a: int, b: int| 0 <= a < b < self.versions@.len() implies post[a]
                != post[b] by {
                if b < prior.len() {
                    assert(post[a] == prior[a] && post[b] == prior[b]);
                } else {
                    assert(post[b] == version@ && post[a] == prior[a]);
                }
            }
        }
    }
}

} // verus!
