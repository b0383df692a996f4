//! Releases of a project, and the rules that pick one release and one file.

use vstd::prelude::*;

verus! {

/// How a release relates to another project.
#[derive(Debug, Clone, Copy, PartialEq, Eq, Hash, Structural)]
pub enum DependencyKind {
    Required,
    Optional,
    Incompatible,
    Embedded,
}

/// An edge from a release to another project.
#[derive(Debug, Clone)]
pub struct Dependency {
    pub project_id: String,
    pub kind: DependencyKind,
}

/// One downloadable file of a release.
#[derive(Debug, Clone)]
pub struct ReleaseFile {
    pub filename: String,
    pub url: String,
    pub primary: bool,
}

/// An instant: whole seconds since the epoch, and the nanoseconds within
/// the second.
#[derive(Debug, Clone, Copy, PartialEq, Eq, Hash, Structural)]
pub struct Timestamp {
    pub seconds: i64,
    pub nanos: u32,
}

/// Whether `a` is earlier than `b`.
pub open spec fn earlier(a: Timestamp, b: Timestamp) -> bool {
    a.seconds < b.seconds || (a.seconds == b.seconds && a.nanos < b.nanos)
}

/// Whether `a` is not later than `b`.
pub open spec fn not_later(a: Timestamp, b: Timestamp) -> bool {
    earlier(a, b) || a == b
}

impl Timestamp {
    /// Whether this instant is earlier than `other`.
    pub fn is_before(&self, other: &Timestamp) -> (r: bool)
        ensures
            r == earlier(*self, *other),
    {
        self.seconds < other.seconds || (self.seconds == other.seconds && self.nanos
            < other.nanos)
    }
}

/// One published version of a project.
#[derive(Debug, Clone)]
pub struct Release {
    pub name: String,
    pub version_label: String,
    pub published: Timestamp,
    pub files: Vec<ReleaseFile>,
    pub dependencies: Vec<Dependency>,
}

/// Whether `at` is the release to take from `releases`: none was published
/// later, and every release behind it was published earlier.
pub open spec fn is_latest(releases: Seq<Release>, at: int) -> bool {
    &&& 0 <= at < releases.len()
    &&& forall|j: int|
        0 <= j < releases.len() ==> not_later(
            (#[trigger] releases[j]).published,
            releases[at].published,
        )
    &&& forall|j: int|
        at < j < releases.len() ==> earlier(
            (#[trigger] releases[j]).published,
            releases[at].published,
        )
}

/// The position of the release to take from a list that is not empty.
pub open spec fn latest_index(releases: Seq<Release>) -> int {
    choose|at: int| is_latest(releases, at)
}

/// The release to take from a list that is not empty.
pub open spec fn latest_of(releases: Seq<Release>) -> Release {
    releases[latest_index(releases)]
}

/// The position of the release that was published last; of several
/// published at the same instant, the one that stands last in the list.
/// `None` exactly for an empty list.
pub fn latest_release(releases: &Vec<Release>) -> (r: Option<usize>)
    ensures
        releases@.len() == 0 <==> r is None,
        r matches Some(at) ==> is_latest(releases@, at as int),
{
    if releases.len() == 0 {
        return None;
    }
    let mut best: usize = 0;
    let mut i: usize = 1;
    while i < releases.len()
        invariant
            1 <= i <= releases@.len(),
            is_latest(releases@.subrange(0, i as int), best as int),
        decreases releases@.len() - i,
    {
        let ghost held = best;
        if !releases[i].published.is_before(&releases[best].published) {
            best = i;
        }
        i = i + 1;
        assert forall|j: int| 0 <= j < i implies not_later(
            (#[trigger] releases@.subrange(0, i as int)[j]).published,
            releases@[best as int].published,
        ) by {
            if j < i - 1 {
                assert(releases@.subrange(0, i - 1)[j] == releases@[j]);
                assert(not_later(releases@[j].published, releases@[held as int].published));
            }
        }
        assert forall|j: int| best < j < i implies earlier(
            (#[trigger] releases@.subrange(0, i as int)[j]).published,
            releases@[best as int].published,
        ) by {
            if j < i - 1 {
                assert(releases@.subrange(0, i - 1)[j] == releases@[j]);
                assert(earlier(releases@[j].published, releases@[held as int].published));
            }
        }
    }
    assert(releases@.subrange(0, i as int) =~= releases@);
    Some(best)
}

/// Whether `at` is the file to download from `files`: the first one that
/// is flagged primary, or the first file where none is flagged.
pub open spec fn is_primary_choice(files: Seq<ReleaseFile>, at: int) -> bool {
    &&& 0 <= at < files.len()
    &&& forall|j: int| 0 <= j < at ==> !(#[trigger] files[j]).primary
    &&& (files[at].primary || (at == 0 && forall|j: int|
        0 <= j < files.len() ==> !(#[trigger] files[j]).primary))
}

/// The position of the file to download: the first file flagged primary,
/// else the first file. `None` exactly for a release without files.
pub fn primary_file(files: &Vec<ReleaseFile>) -> (r: Option<usize>)
    ensures
        files@.len() == 0 <==> r is None,
        r matches Some(at) ==> is_primary_choice(files@, at as int),
{
    let mut i: usize = 0;
    while i < files.len()
        invariant
            i <= files@.len(),
            forall|j: int| 0 <= j < i ==> !(#[trigger] files@[j]).primary,
        decreases files@.len() - i,
    {
        if files[i].primary {
            return Some(i);
        }
        i = i + 1;
    }
    if files.len() == 0 {
        None
    } else {
        Some(0)
    }
}

/// A non-empty list of files always yields a choice, and only one position
/// meets the rule.
pub proof fn lemma_primary_choice_unique(files: Seq<ReleaseFile>, a: int, b: int)
    requires
        is_primary_choice(files, a),
        is_primary_choice(files, b),
    ensures
        a == b,
{
}

/// Only one position of a list of releases is the latest.
pub proof fn lemma_latest_unique(releases: Seq<Release>, a: int, b: int)
    requires
        is_latest(releases, a),
        is_latest(releases, b),
    ensures
        a == b,
{
    assert(not_later(releases[a].published, releases[b].published));
    assert(not_later(releases[b].published, releases[a].published));
}

} // verus!
