//! The dependency resolver: a work list of projects to visit and the list of
//! releases picked so far. The caller performs the catalog requests; every
//! decision between two requests is taken here.

use crate::catalog::{texts, CatalogIndex, Project, ProjectKey};
use crate::release::{
    is_latest, is_primary_choice, latest_index, latest_of, latest_release, lemma_latest_unique,
    primary_file, Dependency, DependencyKind, Release,
};
use vstd::prelude::*;

verus! {

/// Why a resolution run stops.
#[derive(Debug, Clone, Copy, PartialEq, Eq, Hash, Structural)]
pub enum ResolverError {
    /// The release that was picked for a project has no file.
    NoFiles,
}

/// One resolved project: the release picked for it and the file to fetch.
#[derive(Debug, Clone)]
pub struct Pick {
    pub key: ProjectKey,
    pub project_id: String,
    /// Position of the release in the list it was picked from.
    pub release: usize,
    /// Position of the file in the release's list of files.
    pub file: usize,
    pub filename: String,
    pub url: String,
}

/// What the caller does after taking an entry from the work list.
#[derive(Debug, Clone, Copy, PartialEq, Eq, Structural)]
pub enum Step {
    /// The work list is empty: the run is over.
    Finished,
    /// The project is resolved already; nothing to do for this entry.
    Revisit { key: ProjectKey, depth: usize },
    /// Ask the catalog for the releases of this project, then call
    /// [`ResolutionState::decide`].
    Query { key: ProjectKey, depth: usize },
}

/// What came of the releases of one project.
#[derive(Debug, Clone)]
pub enum Choice {
    /// No release matches: the project stays unresolved and none of its
    /// dependencies is looked at.
    Nothing,
    /// A release was picked and appended to the picks. `wanted` holds the
    /// project ids to fetch and enqueue next.
    Taken { wanted: Vec<String> },
}

/// The targets of those edges of `deps` that are required and not in
/// `done`, in the order of the edges.
pub open spec fn wanted_ids(deps: Seq<Dependency>, done: Seq<Seq<char>>) -> Seq<Seq<char>>
    decreases deps.len(),
{
    if deps.len() == 0 {
        Seq::empty()
    } else {
        let before = wanted_ids(deps.drop_last(), done);
        let edge = deps.last();
        if edge.kind == DependencyKind::Required && !done.contains(edge.project_id@) {
            before.push(edge.project_id@)
        } else {
            before
        }
    }
}

/// Whether `pick` is the pick for `project` under `key`, given the releases
/// that the catalog returned for it.
pub open spec fn pick_of(pick: Pick, key: ProjectKey, project: Project, releases: Seq<Release>)
    -> bool {
    &&& pick.key == key
    &&& pick.project_id@ == project.id@
    &&& picked_from(pick, releases)
}

/// Whether `pick` names the release of `releases` that was published last,
/// and that release's file to download.
pub open spec fn picked_from(pick: Pick, releases: Seq<Release>) -> bool {
    &&& is_latest(releases, pick.release as int)
    &&& is_primary_choice(releases[pick.release as int].files@, pick.file as int)
    &&& pick.filename@ == releases[pick.release as int].files@[pick.file as int].filename@
    &&& pick.url@ == releases[pick.release as int].files@[pick.file as int].url@
}

/// The state of one resolution run.
pub struct ResolutionState {
    frontier: Vec<(ProjectKey, usize)>,
    picks: Vec<Pick>,
}

impl ResolutionState {
    /// The work list, last entry first to be taken.
    pub closed spec fn frontier(&self) -> Seq<(ProjectKey, usize)> {
        self.frontier@
    }

    /// The picks made so far, oldest first.
    pub closed spec fn picks(&self) -> Seq<Pick> {
        self.picks@
    }

    /// The ids of the projects resolved so far.
    pub open spec fn downloaded(&self) -> Seq<Seq<char>> {
        Seq::new(self.picks().len(), |i: int| self.picks()[i].project_id@)
    }

    /// No project is picked twice, and no entry of the work list lies
    /// deeper than the number of picks.
    pub open spec fn wf(&self) -> bool {
        &&& forall|i: int, j: int|
            0 <= i < j < self.picks().len() ==> (#[trigger] self.picks()[i]).project_id@ != (
            #[trigger] self.picks()[j]).project_id@
        &&& forall|k: int|
            0 <= k < self.frontier().len() ==> (#[trigger] self.frontier()[k]).1
                <= self.picks().len()
    }

    /// Every key on the work list was handed out by `index`.
    pub open spec fn fits(&self, index: &CatalogIndex) -> bool {
        forall|k: int|
            0 <= k < self.frontier().len() ==> index.holds((#[trigger] self.frontier()[k]).0)
    }

    /// A run that starts from `seeds`, each at depth 0.
    pub fn new(seeds: &Vec<ProjectKey>) -> (r: ResolutionState)
        ensures
            r.wf(),
            r.picks().len() == 0,
            r.frontier() == Seq::new(seeds@.len(), |i: int| (seeds@[i], 0usize)),
    {
        let mut frontier: Vec<(ProjectKey, usize)> = Vec::with_capacity(seeds.len());
        let mut i: usize = 0;
        while i < seeds.len()
            invariant
                i <= seeds@.len(),
                frontier@ == Seq::new(i as nat, |k: int| (seeds@[k], 0usize)),
            decreases seeds@.len() - i,
        {
            frontier.push((seeds[i], 0));
            i = i + 1;
            assert(frontier@ =~= Seq::new(i as nat, |k: int| (seeds@[k], 0usize)));
        }
        ResolutionState { frontier, picks: Vec::new() }
    }

    /// The picks made so far, oldest first.
    pub fn output(&self) -> (r: &Vec<Pick>)
        ensures
            r@ == self.picks(),
    {
        &self.picks
    }

    /// Ends the run and hands out its picks, oldest first.
    pub fn into_output(self) -> (r: Vec<Pick>)
        ensures
            r@ == self.picks(),
    {
        self.picks
    }

    /// The number of entries on the work list.
    pub fn pending(&self) -> (n: usize)
        ensures
            n == self.frontier().len(),
    {
        self.frontier.len()
    }

    /// Whether the project with this id is resolved.
    pub fn is_downloaded(&self, id: &String) -> (r: bool)
        ensures
            r == self.downloaded().contains(id@),
    {
        let mut i: usize = 0;
        while i < self.picks.len()
            invariant
                i <= self.picks().len(),
                forall|k: int| 0 <= k < i ==> self.downloaded()[k] != id@,
            decreases self.picks().len() - i,
        {
            if self.picks[i].project_id == *id {
                assert(self.downloaded()[i as int] == id@);
                return true;
            }
            i = i + 1;
        }
        false
    }

    /// Takes the last entry from the work list and says what to do with it.
    pub fn pop(&mut self, index: &CatalogIndex) -> (r: Step)
        requires
            old(self).wf(),
            old(self).fits(index),
        ensures
            final(self).wf(),
            final(self).fits(index),
            final(self).picks() == old(self).picks(),
            old(self).frontier().len() == 0 ==> r == Step::Finished && final(self).frontier()
                == old(self).frontier(),
            old(self).frontier().len() > 0 ==> final(self).frontier() == old(self).frontier().drop_last() && r == (if old(self).downloaded().contains(
                index@[old(self).frontier().last().0.0 as int].id@,
            ) {
                Step::Revisit {
                    key: old(self).frontier().last().0,
                    depth: old(self).frontier().last().1,
                }
            } else {
                Step::Query {
                    key: old(self).frontier().last().0,
                    depth: old(self).frontier().last().1,
                }
            }),
    {
        match self.frontier.pop() {
            None => Step::Finished,
            Some((key, depth)) => {
                let project = index.get(key);
                if self.is_downloaded(&project.id) {
                    Step::Revisit { key, depth }
                } else {
                    Step::Query { key, depth }
                }
            },
        }
    }

    /// The ids to fetch for the edges `deps`: the targets of the required
    /// edges whose project is not resolved, in the order of the edges.
    pub fn wanted(&self, deps: &Vec<Dependency>) -> (r: Vec<String>)
        ensures
            texts(r@) == wanted_ids(deps@, self.downloaded()),
    {
        let mut out: Vec<String> = Vec::new();
        let mut i: usize = 0;
        while i < deps.len()
            invariant
                i <= deps@.len(),
                texts(out@) == wanted_ids(deps@.subrange(0, i as int), self.downloaded()),
            decreases deps@.len() - i,
        {
            assert(deps@.subrange(0, i + 1).drop_last() =~= deps@.subrange(0, i as int));
            let edge = &deps[i];
            let required = match edge.kind {
                DependencyKind::Required => true,
                _ => false,
            };
            if required && !self.is_downloaded(&edge.project_id) {
                let ghost before = out@;
                out.push(edge.project_id.clone());
                assert(texts(out@) =~= texts(before).push(edge.project_id@));
            }
            i = i + 1;
        }
        assert(deps@.subrange(0, i as int) =~= deps@);
        out
    }

    /// Decides on the releases that the catalog returned for the project
    /// under `key`.
    ///
    /// Without a release the project is passed over and the state stays as
    /// it is. Otherwise the release published last is picked, and its first
    /// file flagged primary, or its first file where none is flagged; a
    /// release without files stops the run. The pick is appended, and the
    /// result lists the required dependencies that are not resolved yet, the
    /// project itself counting as resolved.
    pub fn decide(&mut self, index: &CatalogIndex, key: ProjectKey, releases: &Vec<Release>) -> (r:
        Result<Choice, ResolverError>)
        requires
            old(self).wf(),
            index.holds(key),
            !old(self).downloaded().contains(index@[key.0 as int].id@),
        ensures
            final(self).wf(),
            final(self).frontier() == old(self).frontier(),
            releases@.len() == 0 ==> (r matches Ok(Choice::Nothing)) && final(self).picks()
                == old(self).picks(),
            releases@.len() > 0 && latest_of(releases@).files@.len() == 0 ==> r == Err::<
                Choice,
                ResolverError,
            >(ResolverError::NoFiles) && final(self).picks() == old(self).picks(),
            releases@.len() > 0 && latest_of(releases@).files@.len() > 0 ==> {
                &&& final(self).picks().len() == old(self).picks().len() + 1
                &&& final(self).picks().drop_last() == old(self).picks()
                &&& pick_of(final(self).picks().last(), key, index@[key.0 as int], releases@)
                &&& (r matches Ok(Choice::Taken { wanted }) && texts(wanted@) == wanted_ids(
                    latest_of(releases@).dependencies@,
                    final(self).downloaded(),
                ))
            },
    {
        let at = match latest_release(releases) {
            None => {
                return Ok(Choice::Nothing);
            },
            Some(at) => at,
        };
        let release = &releases[at];
        proof {
            lemma_latest_unique(releases@, at as int, latest_index(releases@));
        }
        let file = match primary_file(&release.files) {
            None => {
                return Err(ResolverError::NoFiles);
            },
            Some(file) => file,
        };
        let project = index.get(key);
        let pick = Pick {
            key,
            project_id: project.id.clone(),
            release: at,
            file,
            filename: release.files[file].filename.clone(),
            url: release.files[file].url.clone(),
        };
        let ghost before = self.picks@;
        self.picks.push(pick);
        proof {
            assert(self.picks@.drop_last() =~= before);
            assert forall|i: int, j: int| 0 <= i < j < self.picks@.len() implies (
            #[trigger] self.picks@[i]).project_id@ != (#[trigger] self.picks@[j]).project_id@ by {
                if j == before.len() {
                    assert(old(self).downloaded()[i] == before[i].project_id@);
                } else {
                    assert(self.picks@[i] == old(self).picks()[i]);
                    assert(self.picks@[j] == old(self).picks()[j]);
                }
            }
            assert forall|k: int| 0 <= k < self.frontier@.len() implies (
            #[trigger] self.frontier@[k]).1 <= self.picks@.len() by {
                assert(self.frontier@[k] == old(self).frontier()[k]);
            }
        }
        let wanted = self.wanted(&release.dependencies);
        Ok(Choice::Taken { wanted })
    }

    /// Puts a project on the work list at the given depth.
    pub fn enqueue(&mut self, index: &CatalogIndex, key: ProjectKey, depth: usize)
        requires
            old(self).wf(),
            old(self).fits(index),
            index.holds(key),
            depth <= old(self).picks().len(),
        ensures
            final(self).wf(),
            final(self).fits(index),
            final(self).picks() == old(self).picks(),
            final(self).frontier() == old(self).frontier().push((key, depth)),
    {
        self.frontier.push((key, depth));
        proof {
            assert forall|k: int| 0 <= k < self.frontier@.len() implies (
            #[trigger] self.frontier@[k]).1 <= self.picks@.len() && index.holds(
                self.frontier@[k].0,
            ) by {
                if k < old(self).frontier@.len() {
                    assert(self.frontier@[k] == old(self).frontier()[k]);
                }
            }
        }
    }
}

/// No project id occurs twice among the picks of a run.
pub proof fn lemma_each_project_once(state: ResolutionState, i: int, j: int)
    requires
        state.wf(),
        0 <= i < state.picks().len(),
        0 <= j < state.picks().len(),
        i != j,
    ensures
        state.downloaded()[i] != state.downloaded()[j],
        state.picks()[i].project_id@ != state.picks()[j].project_id@,
{
    if i < j {
        assert(state.picks()[i].project_id@ != state.picks()[j].project_id@);
    } else {
        assert(state.picks()[j].project_id@ != state.picks()[i].project_id@);
    }
}

} // verus!
