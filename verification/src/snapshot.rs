//! Resolution against a catalog held in memory: the whole traversal, from
//! the seeds to an empty work list.

use crate::catalog::{CatalogIndex, Project, ProjectKey};
use crate::release::{
    latest_index, latest_of, lemma_latest_unique, Dependency, DependencyKind, Release,
};
use crate::resolver::{
    picked_from, wanted_ids, Choice, Pick, ResolutionState, ResolverError, Step,
};
use vstd::prelude::*;

verus! {

/// A project and the releases of it that match the request.
#[derive(Debug, Clone)]
pub struct CatalogEntry {
    pub project: Project,
    pub releases: Vec<Release>,
}

/// What the catalog holds at one moment, as far as a run needs it. Of
/// several entries with one project id only the first counts.
#[derive(Debug, Clone)]
pub struct Snapshot {
    pub entries: Vec<CatalogEntry>,
}

impl Snapshot {
    /// The project ids of the entries, in their order.
    pub open spec fn ids(&self) -> Seq<Seq<char>> {
        Seq::new(self.entries@.len(), |i: int| self.entries@[i].project.id@)
    }

    /// Whether `at` is the first entry of the project `id`.
    pub open spec fn is_entry_of(&self, at: int, id: Seq<char>) -> bool {
        &&& 0 <= at < self.entries@.len()
        &&& self.ids()[at] == id
        &&& forall|k: int| 0 <= k < at ==> self.ids()[k] != id
    }

    /// The position of the first entry of the project `id`, for a project
    /// that the snapshot knows.
    pub open spec fn entry_of(&self, id: Seq<char>) -> int {
        choose|at: int| self.is_entry_of(at, id)
    }

    /// The releases that the snapshot holds for the project `id`; none for
    /// a project that it does not know.
    pub open spec fn releases_of(&self, id: Seq<char>) -> Seq<Release> {
        if self.ids().contains(id) {
            self.entries@[self.entry_of(id)].releases@
        } else {
            Seq::empty()
        }
    }

    /// Only one position is the first entry of a project.
    pub proof fn lemma_entry_unique(&self, at: int, id: Seq<char>)
        requires
            self.is_entry_of(at, id),
        ensures
            self.entry_of(id) == at,
            self.ids().contains(id),
            self.releases_of(id) == self.entries@[at].releases@,
    {
        let other = self.entry_of(id);
        assert(self.is_entry_of(other, id));
        if other < at {
            assert(self.ids()[other] != id);
        }
        if at < other {
            assert(self.ids()[at] != id);
        }
    }

    /// The first entry of the project `id`; `None` exactly when the
    /// snapshot does not know the project.
    pub fn find(&self, id: &String) -> (r: Option<usize>)
        ensures
            r is None <==> !self.ids().contains(id@),
            r matches Some(at) ==> self.is_entry_of(at as int, id@),
    {
        let mut i: usize = 0;
        while i < self.entries.len()
            invariant
                i <= self.entries@.len(),
                forall|k: int| 0 <= k < i ==> self.ids()[k] != id@,
            decreases self.entries@.len() - i,
        {
            if self.entries[i].project.id == *id {
                assert(self.ids()[i as int] == id@);
                return Some(i);
            }
            i = i + 1;
        }
        None
    }
}

/// Whether `pick` was made from the releases that `snapshot` holds for the
/// picked project; this needs at least one such release.
pub open spec fn sourced(snapshot: &Snapshot, pick: Pick) -> bool {
    picked_from(pick, snapshot.releases_of(pick.project_id@))
}

/// Whether every pick belongs to the project that `index` holds under the
/// pick's key, and was made from that project's releases in `snapshot`.
pub open spec fn all_sourced(snapshot: &Snapshot, index: Seq<Project>, picks: Seq<Pick>) -> bool {
    forall|i: int|
        0 <= i < picks.len() ==> {
            &&& (#[trigger] picks[i]).key.0 < index.len()
            &&& index[picks[i].key.0 as int].id@ == picks[i].project_id@
            &&& sourced(snapshot, picks[i])
        }
}

/// Whether no project id occurs twice among `picks`.
pub open spec fn all_distinct(picks: Seq<Pick>) -> bool {
    forall|i: int, j: int|
        0 <= i < j < picks.len() ==> (#[trigger] picks[i]).project_id@ != (
        #[trigger] picks[j]).project_id@
}

/// Whether the project `id` is among `picks`.
pub open spec fn picked(picks: Seq<Pick>, id: Seq<char>) -> bool {
    exists|i: int| 0 <= i < picks.len() && (#[trigger] picks[i]).project_id@ == id
}

/// Whether the release that `pick` names has a required edge to the
/// project `id`.
pub open spec fn needs(snapshot: &Snapshot, pick: Pick, id: Seq<char>) -> bool {
    requires_project(
        snapshot.releases_of(pick.project_id@)[pick.release as int].dependencies@,
        id,
    )
}

/// Whether one of the edges `deps` is a required edge to the project `id`.
pub open spec fn requires_project(deps: Seq<Dependency>, id: Seq<char>) -> bool {
    exists|d: int|
        0 <= d < deps.len() && (#[trigger] deps[d]).kind == DependencyKind::Required
            && deps[d].project_id@ == id
}

/// Whether nothing is left to do for the project `id`: it is picked, or the
/// snapshot holds no release of it.
pub open spec fn settled(snapshot: &Snapshot, picks: Seq<Pick>, id: Seq<char>) -> bool {
    picked(picks, id) || snapshot.releases_of(id).len() == 0
}

/// Whether the project `id` has a reason to be visited: it is a seed, or
/// one of the first `upto` picks requires it.
pub open spec fn rooted(
    snapshot: &Snapshot,
    seeds: Seq<Seq<char>>,
    picks: Seq<Pick>,
    upto: int,
    id: Seq<char>,
) -> bool {
    seeds.contains(id) || exists|j: int|
        0 <= j < upto && j < picks.len() && #[trigger] needs(snapshot, picks[j], id)
}

/// The project ids of the seeds.
pub open spec fn seed_ids(index: Seq<Project>, seeds: Seq<ProjectKey>) -> Seq<Seq<char>> {
    Seq::new(seeds.len(), |i: int| index[seeds[i].0 as int].id@)
}

/// Whether `picks` resolves the seeds against the snapshot.
///
/// Every pick was asked for: its project is a seed or is required by the
/// release of an earlier pick. Nothing that was asked for is missing: each
/// seed, and each project that the release of a pick requires, is picked
/// unless the snapshot holds no release of it.
pub open spec fn is_resolution(snapshot: &Snapshot, seeds: Seq<Seq<char>>, picks: Seq<Pick>)
    -> bool {
    &&& forall|i: int|
        0 <= i < picks.len() ==> #[trigger] rooted(
            snapshot,
            seeds,
            picks,
            i,
            picks[i].project_id@,
        )
    &&& forall|s: int| 0 <= s < seeds.len() ==> settled(snapshot, picks, #[trigger] seeds[s])
    &&& forall|j: int, id: Seq<char>|
        0 <= j < picks.len() && #[trigger] needs(snapshot, picks[j], id) ==> settled(
            snapshot,
            picks,
            id,
        )
}

/// Whether the release to take from `releases` has no file.
pub open spec fn broken(releases: Seq<Release>) -> bool {
    releases.len() > 0 && latest_of(releases).files@.len() == 0
}

/// Whether a run reaches the project `id` after the picks `trail`: each
/// pick of the trail comes from the snapshot and was asked for by a seed or
/// by an earlier pick, and so is `id`.
pub open spec fn reaches(
    snapshot: &Snapshot,
    seeds: Seq<Seq<char>>,
    trail: Seq<Pick>,
    id: Seq<char>,
) -> bool {
    &&& forall|i: int|
        0 <= i < trail.len() ==> sourced(snapshot, #[trigger] trail[i]) && rooted(
            snapshot,
            seeds,
            trail,
            i,
            trail[i].project_id@,
        )
    &&& rooted(snapshot, seeds, trail, trail.len() as int, id)
}

/// The project id of the entry at `k` of the work list.
spec fn frontier_id(index: Seq<Project>, frontier: Seq<(ProjectKey, usize)>, k: int) -> Seq<
    char,
> {
    index[frontier[k].0.0 as int].id@
}

/// Whether the project `id` stands on the work list.
spec fn waiting(index: Seq<Project>, frontier: Seq<(ProjectKey, usize)>, id: Seq<char>) -> bool {
    exists|k: int| 0 <= k < frontier.len() && #[trigger] frontier_id(index, frontier, k) == id
}

/// Whether the project `id` is settled or will be visited.
spec fn served(
    snapshot: &Snapshot,
    index: Seq<Project>,
    picks: Seq<Pick>,
    frontier: Seq<(ProjectKey, usize)>,
    id: Seq<char>,
) -> bool {
    settled(snapshot, picks, id) || waiting(index, frontier, id)
}

/// Every pick was asked for.
spec fn roots_ok(snapshot: &Snapshot, seeds: Seq<Seq<char>>, picks: Seq<Pick>) -> bool {
    forall|i: int|
        0 <= i < picks.len() ==> #[trigger] rooted(
            snapshot,
            seeds,
            picks,
            i,
            picks[i].project_id@,
        )
}

/// Every entry of the work list was asked for.
spec fn frontier_ok(
    snapshot: &Snapshot,
    seeds: Seq<Seq<char>>,
    index: Seq<Project>,
    picks: Seq<Pick>,
    frontier: Seq<(ProjectKey, usize)>,
) -> bool {
    forall|k: int|
        0 <= k < frontier.len() ==> rooted(
            snapshot,
            seeds,
            picks,
            picks.len() as int,
            #[trigger] frontier_id(index, frontier, k),
        )
}

/// Every seed is settled or will be visited.
spec fn seeds_ok(
    snapshot: &Snapshot,
    seeds: Seq<Seq<char>>,
    index: Seq<Project>,
    picks: Seq<Pick>,
    frontier: Seq<(ProjectKey, usize)>,
) -> bool {
    forall|s: int|
        0 <= s < seeds.len() ==> served(snapshot, index, picks, frontier, #[trigger] seeds[s])
}

/// Every project that one of the first `upto` picks requires is settled or
/// will be visited.
spec fn needs_ok(
    snapshot: &Snapshot,
    index: Seq<Project>,
    picks: Seq<Pick>,
    upto: int,
    frontier: Seq<(ProjectKey, usize)>,
) -> bool {
    forall|j: int, id: Seq<char>|
        0 <= j < upto && j < picks.len() && #[trigger] needs(snapshot, picks[j], id) ==> served(
            snapshot,
            index,
            picks,
            frontier,
            id,
        )
}

/// A project that is served stays served when the last entry leaves the
/// work list, unless it was that entry's project.
proof fn lemma_served_after_pop(
    snapshot: &Snapshot,
    index: Seq<Project>,
    picks: Seq<Pick>,
    frontier: Seq<(ProjectKey, usize)>,
    id: Seq<char>,
)
    requires
        frontier.len() > 0,
        served(snapshot, index, picks, frontier, id),
        id != frontier_id(index, frontier, frontier.len() - 1),
    ensures
        served(snapshot, index, picks, frontier.drop_last(), id),
{
    if !settled(snapshot, picks, id) {
        let k = choose|k: int|
            0 <= k < frontier.len() && #[trigger] frontier_id(index, frontier, k) == id;
        assert(frontier_id(index, frontier.drop_last(), k) == id);
    }
}

/// The last entry leaves the work list, its project being settled.
proof fn lemma_pop(
    snapshot: &Snapshot,
    seeds: Seq<Seq<char>>,
    index: Seq<Project>,
    picks: Seq<Pick>,
    frontier: Seq<(ProjectKey, usize)>,
)
    requires
        frontier.len() > 0,
        frontier_ok(snapshot, seeds, index, picks, frontier),
        seeds_ok(snapshot, seeds, index, picks, frontier),
        needs_ok(snapshot, index, picks, picks.len() as int, frontier),
        settled(snapshot, picks, frontier_id(index, frontier, frontier.len() - 1)),
    ensures
        frontier_ok(snapshot, seeds, index, picks, frontier.drop_last()),
        seeds_ok(snapshot, seeds, index, picks, frontier.drop_last()),
        needs_ok(snapshot, index, picks, picks.len() as int, frontier.drop_last()),
{
    let rest = frontier.drop_last();
    assert forall|k: int| 0 <= k < rest.len() implies rooted(
        snapshot,
        seeds,
        picks,
        picks.len() as int,
        #[trigger] frontier_id(index, rest, k),
    ) by {
        assert(frontier_id(index, rest, k) == frontier_id(index, frontier, k));
    }
    assert forall|s: int| 0 <= s < seeds.len() implies served(
        snapshot,
        index,
        picks,
        rest,
        #[trigger] seeds[s],
    ) by {
        if seeds[s] != frontier_id(index, frontier, frontier.len() - 1) {
            lemma_served_after_pop(snapshot, index, picks, frontier, seeds[s]);
        }
    }
    assert forall|j: int, id: Seq<char>|
        0 <= j < picks.len() && #[trigger] needs(snapshot, picks[j], id) implies served(
        snapshot,
        index,
        picks,
        rest,
        id,
    ) by {
        if id != frontier_id(index, frontier, frontier.len() - 1) {
            lemma_served_after_pop(snapshot, index, picks, frontier, id);
        }
    }
}

/// A project that is served stays served when a pick is added.
proof fn lemma_served_after_pick(
    snapshot: &Snapshot,
    index: Seq<Project>,
    picks: Seq<Pick>,
    pick: Pick,
    frontier: Seq<(ProjectKey, usize)>,
    id: Seq<char>,
)
    requires
        served(snapshot, index, picks, frontier, id),
    ensures
        served(snapshot, index, picks.push(pick), frontier, id),
{
    if picked(picks, id) {
        let i = choose|i: int| 0 <= i < picks.len() && (#[trigger] picks[i]).project_id@ == id;
        assert(picks.push(pick)[i].project_id@ == id);
    }
}

/// A project that has a reason to be visited keeps it when a pick is added.
proof fn lemma_rooted_after_pick(
    snapshot: &Snapshot,
    seeds: Seq<Seq<char>>,
    picks: Seq<Pick>,
    pick: Pick,
    upto: int,
    id: Seq<char>,
)
    requires
        rooted(snapshot, seeds, picks, upto, id),
    ensures
        rooted(snapshot, seeds, picks.push(pick), upto, id),
        rooted(snapshot, seeds, picks.push(pick), picks.len() + 1 as int, id),
{
    if !seeds.contains(id) {
        let j = choose|j: int|
            0 <= j < upto && j < picks.len() && #[trigger] needs(snapshot, picks[j], id);
        assert(picks.push(pick)[j] == picks[j]);
        assert(needs(snapshot, picks.push(pick)[j], id));
    }
}

/// The project of the last entry of the work list is picked.
proof fn lemma_take(
    snapshot: &Snapshot,
    seeds: Seq<Seq<char>>,
    index: Seq<Project>,
    picks: Seq<Pick>,
    frontier: Seq<(ProjectKey, usize)>,
    pick: Pick,
)
    requires
        frontier.len() > 0,
        roots_ok(snapshot, seeds, picks),
        frontier_ok(snapshot, seeds, index, picks, frontier),
        seeds_ok(snapshot, seeds, index, picks, frontier),
        needs_ok(snapshot, index, picks, picks.len() as int, frontier),
        pick.project_id@ == frontier_id(index, frontier, frontier.len() - 1),
    ensures
        roots_ok(snapshot, seeds, picks.push(pick)),
        frontier_ok(snapshot, seeds, index, picks.push(pick), frontier.drop_last()),
        seeds_ok(snapshot, seeds, index, picks.push(pick), frontier.drop_last()),
        needs_ok(snapshot, index, picks.push(pick), picks.len() as int, frontier.drop_last()),
{
    let more = picks.push(pick);
    let rest = frontier.drop_last();
    let last = frontier.len() - 1;
    assert(more[picks.len() as int].project_id@ == pick.project_id@);
    assert(picked(more, pick.project_id@));
    assert forall|i: int| 0 <= i < more.len() implies #[trigger] rooted(
        snapshot,
        seeds,
        more,
        i,
        more[i].project_id@,
    ) by {
        if i < picks.len() {
            assert(rooted(snapshot, seeds, picks, i, picks[i].project_id@));
            lemma_rooted_after_pick(snapshot, seeds, picks, pick, i, picks[i].project_id@);
        } else {
            assert(rooted(
                snapshot,
                seeds,
                picks,
                picks.len() as int,
                frontier_id(index, frontier, last),
            ));
            lemma_rooted_after_pick(
                snapshot,
                seeds,
                picks,
                pick,
                picks.len() as int,
                pick.project_id@,
            );
        }
    }
    assert forall|k: int| 0 <= k < rest.len() implies rooted(
        snapshot,
        seeds,
        more,
        more.len() as int,
        #[trigger] frontier_id(index, rest, k),
    ) by {
        assert(frontier_id(index, rest, k) == frontier_id(index, frontier, k));
        lemma_rooted_after_pick(
            snapshot,
            seeds,
            picks,
            pick,
            picks.len() as int,
            frontier_id(index, frontier, k),
        );
    }
    assert forall|s: int| 0 <= s < seeds.len() implies served(
        snapshot,
        index,
        more,
        rest,
        #[trigger] seeds[s],
    ) by {
        if seeds[s] != frontier_id(index, frontier, last) {
            lemma_served_after_pop(snapshot, index, picks, frontier, seeds[s]);
            lemma_served_after_pick(snapshot, index, picks, pick, rest, seeds[s]);
        }
    }
    assert forall|j: int, id: Seq<char>|
        0 <= j < picks.len() && j < more.len() && #[trigger] needs(
            snapshot,
            more[j],
            id,
        ) implies served(snapshot, index, more, rest, id) by {
        assert(more[j] == picks[j]);
        assert(needs(snapshot, picks[j], id));
        if id != frontier_id(index, frontier, last) {
            lemma_served_after_pop(snapshot, index, picks, frontier, id);
            lemma_served_after_pick(snapshot, index, picks, pick, rest, id);
        }
    }
}

/// A project that is served stays served when the index grows and an entry
/// joins the work list.
proof fn lemma_served_after_push(
    snapshot: &Snapshot,
    index: Seq<Project>,
    grown: Seq<Project>,
    picks: Seq<Pick>,
    frontier: Seq<(ProjectKey, usize)>,
    entry: (ProjectKey, usize),
    id: Seq<char>,
)
    requires
        index.is_prefix_of(grown),
        forall|k: int| 0 <= k < frontier.len() ==> (#[trigger] frontier[k]).0.0 < index.len(),
        served(snapshot, index, picks, frontier, id),
    ensures
        served(snapshot, grown, picks, frontier.push(entry), id),
{
    if !settled(snapshot, picks, id) {
        let k = choose|k: int|
            0 <= k < frontier.len() && #[trigger] frontier_id(index, frontier, k) == id;
        assert(frontier[k].0.0 < index.len());
        assert(grown[frontier[k].0.0 as int] == index[frontier[k].0.0 as int]);
        assert(frontier_id(grown, frontier.push(entry), k) == id);
    }
}

/// An entry that was asked for joins the work list, the index having grown
/// or not.
proof fn lemma_push(
    snapshot: &Snapshot,
    seeds: Seq<Seq<char>>,
    index: Seq<Project>,
    grown: Seq<Project>,
    picks: Seq<Pick>,
    upto: int,
    frontier: Seq<(ProjectKey, usize)>,
    entry: (ProjectKey, usize),
)
    requires
        index.is_prefix_of(grown),
        forall|k: int| 0 <= k < frontier.len() ==> (#[trigger] frontier[k]).0.0 < index.len(),
        entry.0.0 < grown.len(),
        rooted(snapshot, seeds, picks, picks.len() as int, grown[entry.0.0 as int].id@),
        frontier_ok(snapshot, seeds, index, picks, frontier),
        seeds_ok(snapshot, seeds, index, picks, frontier),
        needs_ok(snapshot, index, picks, upto, frontier),
    ensures
        frontier_ok(snapshot, seeds, grown, picks, frontier.push(entry)),
        seeds_ok(snapshot, seeds, grown, picks, frontier.push(entry)),
        needs_ok(snapshot, grown, picks, upto, frontier.push(entry)),
        served(snapshot, grown, picks, frontier.push(entry), grown[entry.0.0 as int].id@),
{
    let more = frontier.push(entry);
    assert forall|k: int| 0 <= k < more.len() implies rooted(
        snapshot,
        seeds,
        picks,
        picks.len() as int,
        #[trigger] frontier_id(grown, more, k),
    ) by {
        if k < frontier.len() {
            assert(frontier[k].0.0 < index.len());
            assert(grown[frontier[k].0.0 as int] == index[frontier[k].0.0 as int]);
            assert(frontier_id(grown, more, k) == frontier_id(index, frontier, k));
        }
    }
    assert forall|s: int| 0 <= s < seeds.len() implies served(
        snapshot,
        grown,
        picks,
        more,
        #[trigger] seeds[s],
    ) by {
        lemma_served_after_push(snapshot, index, grown, picks, frontier, entry, seeds[s]);
    }
    assert forall|j: int, id: Seq<char>|
        0 <= j < upto && j < picks.len() && #[trigger] needs(snapshot, picks[j], id) implies served(
        snapshot,
        grown,
        picks,
        more,
        id,
    ) by {
        lemma_served_after_push(snapshot, index, grown, picks, frontier, entry, id);
    }
    assert(frontier_id(grown, more, frontier.len() as int) == grown[entry.0.0 as int].id@);
}

/// A required edge leads to a project that is done or wanted.
proof fn lemma_wanted_complete(deps: Seq<Dependency>, done: Seq<Seq<char>>, d: int)
    requires
        0 <= d < deps.len(),
        deps[d].kind == DependencyKind::Required,
    ensures
        done.contains(deps[d].project_id@) || wanted_ids(deps, done).contains(
            deps[d].project_id@,
        ),
    decreases deps.len(),
{
    let id = deps[d].project_id@;
    let before = wanted_ids(deps.drop_last(), done);
    if d == deps.len() - 1 {
        if !done.contains(id) {
            assert(wanted_ids(deps, done) == before.push(id));
            assert(before.push(id)[before.len() as int] == id);
        }
    } else {
        assert(deps.drop_last()[d] == deps[d]);
        lemma_wanted_complete(deps.drop_last(), done, d);
        if before.contains(id) {
            let x = choose|x: int| 0 <= x < before.len() && before[x] == id;
            let all = wanted_ids(deps, done);
            assert(all[x] == id);
        }
    }
}

/// Every wanted project is the target of a required edge.
proof fn lemma_wanted_sound(deps: Seq<Dependency>, done: Seq<Seq<char>>, x: int)
    requires
        0 <= x < wanted_ids(deps, done).len(),
    ensures
        requires_project(deps, wanted_ids(deps, done)[x]),
    decreases deps.len(),
{
    let before = wanted_ids(deps.drop_last(), done);
    if x < before.len() {
        lemma_wanted_sound(deps.drop_last(), done, x);
        let d = choose|d: int|
            0 <= d < deps.drop_last().len() && (#[trigger] deps.drop_last()[d]).kind
                == DependencyKind::Required && deps.drop_last()[d].project_id@ == before[x];
        assert(deps[d] == deps.drop_last()[d]);
    } else {
        assert(deps[deps.len() - 1].kind == DependencyKind::Required);
    }
}

/// Distinct picks that all come from the snapshot are no more than its
/// entries.
proof fn lemma_picks_bounded(snapshot: &Snapshot, index: Seq<Project>, state: &ResolutionState)
    requires
        state.wf(),
        all_sourced(snapshot, index, state.picks()),
    ensures
        state.picks().len() <= snapshot.entries@.len(),
{
    let done = state.downloaded();
    let ids = snapshot.ids();
    assert(done.no_duplicates()) by {
        assert forall|i: int, j: int| 0 <= i < done.len() && 0 <= j < done.len() && i != j implies done[i]
            != done[j] by {
            if i < j {
                assert(state.picks()[i].project_id@ != state.picks()[j].project_id@);
            } else {
                assert(state.picks()[j].project_id@ != state.picks()[i].project_id@);
            }
        }
    }
    assert(done.to_set().subset_of(ids.to_set())) by {
        assert forall|id: Seq<char>| done.to_set().contains(id) implies ids.to_set().contains(
            id,
        ) by {
            let i = choose|i: int| 0 <= i < done.len() && done[i] == id;
            assert(sourced(snapshot, state.picks()[i]));
        }
    }
    done.unique_seq_to_set();
    ids.lemma_cardinality_of_set();
    vstd::seq_lib::seq_to_set_is_finite(ids);
    vstd::set_lib::lemma_len_subset(done.to_set(), ids.to_set());
}

/// Resolves `seeds` and everything they require against `snapshot`.
///
/// The work list is emptied entry by entry. A project that is resolved
/// already is passed over, and so is one without a release in the
/// snapshot. For the required dependencies of a pick, a project that
/// `index` holds already is visited under its key; one that only the
/// snapshot knows is appended to `index` first; one that neither knows is
/// left out. The run always ends: each round either resolves a project of
/// the snapshot that was not resolved before, or shortens the work list.
///
/// The run fails only where it reaches a project whose latest release has
/// no file.
pub fn resolve(snapshot: &Snapshot, index: &mut CatalogIndex, seeds: &Vec<ProjectKey>) -> (r:
    Result<Vec<Pick>, ResolverError>)
    requires
        forall|i: int| 0 <= i < seeds@.len() ==> old(index).holds(#[trigger] seeds@[i]),
    ensures
        old(index)@.is_prefix_of(final(index)@),
        r matches Ok(picks) ==> {
            &&& all_distinct(picks@)
            &&& all_sourced(snapshot, final(index)@, picks@)
            &&& is_resolution(snapshot, seed_ids(old(index)@, seeds@), picks@)
        },
        r is Err ==> exists|trail: Seq<Pick>, id: Seq<char>| #[trigger]
            reaches(snapshot, seed_ids(old(index)@, seeds@), trail, id) && broken(
                snapshot.releases_of(id),
            ),
{
    let ghost first = index@;
    let ghost roots = seed_ids(first, seeds@);
    let mut state = ResolutionState::new(seeds);
    proof {
        let frontier = state.frontier();
        assert forall|k: int| 0 <= k < frontier.len() implies rooted(
            snapshot,
            roots,
            state.picks(),
            0,
            #[trigger] frontier_id(first, frontier, k),
        ) by {
            assert(index.holds(seeds@[k]));
            assert(roots[k] == frontier_id(first, frontier, k));
        }
        assert forall|s: int| 0 <= s < roots.len() implies served(
            snapshot,
            first,
            state.picks(),
            frontier,
            #[trigger] roots[s],
        ) by {
            assert(frontier_id(first, frontier, s) == roots[s]);
        }
    }
    loop
        invariant
            state.wf(),
            state.fits(index),
            first == old(index)@,
            roots == seed_ids(first, seeds@),
            first.is_prefix_of(index@),
            all_sourced(snapshot, index@, state.picks()),
            state.picks().len() <= snapshot.entries@.len(),
            roots_ok(snapshot, roots, state.picks()),
            frontier_ok(snapshot, roots, index@, state.picks(), state.frontier()),
            seeds_ok(snapshot, roots, index@, state.picks(), state.frontier()),
            needs_ok(
                snapshot,
                index@,
                state.picks(),
                state.picks().len() as int,
                state.frontier(),
            ),
        decreases snapshot.entries@.len() - state.picks().len(), state.frontier().len(),
    {
        let ghost picks0 = state.picks();
        let ghost frontier0 = state.frontier();
        let step = state.pop(&*index);
        match step {
            Step::Finished => {
                proof {
                    assert forall|s: int| 0 <= s < roots.len() implies settled(
                        snapshot,
                        picks0,
                        #[trigger] roots[s],
                    ) by {
                        assert(served(snapshot, index@, picks0, frontier0, roots[s]));
                    }
                    assert forall|j: int, id: Seq<char>|
                        0 <= j < picks0.len() && #[trigger] needs(
                            snapshot,
                            picks0[j],
                            id,
                        ) implies settled(snapshot, picks0, id) by {
                        assert(served(snapshot, index@, picks0, frontier0, id));
                    }
                }
                return Ok(state.into_output());
            },
            Step::Revisit { key, depth: _ } => {
                proof {
                    let id = index@[key.0 as int].id@;
                    assert(frontier_id(index@, frontier0, frontier0.len() - 1) == id);
                    let i = choose|i: int|
                        0 <= i < state.downloaded().len() && state.downloaded()[i] == id;
                    assert(picks0[i].project_id@ == id);
                    lemma_pop(snapshot, roots, index@, picks0, frontier0);
                }
            },
            Step::Query { key, depth } => {
                let ghost id = index@[key.0 as int].id@;
                assert(frontier_id(index@, frontier0, frontier0.len() - 1) == id);
                let found = snapshot.find(&index.get(key).id);
                match found {
                    None => {
                        proof {
                            lemma_pop(snapshot, roots, index@, picks0, frontier0);
                        }
                    },
                    Some(at) => {
                        proof {
                            snapshot.lemma_entry_unique(at as int, id);
                        }
                        let choice = state.decide(&*index, key, &snapshot.entries[at].releases);
                        match choice {
                            Err(e) => {
                                proof {
                                    assert forall|i: int| 0 <= i < picks0.len() implies sourced(
                                        snapshot,
                                        #[trigger] picks0[i],
                                    ) && rooted(
                                        snapshot,
                                        roots,
                                        picks0,
                                        i,
                                        picks0[i].project_id@,
                                    ) by {}
                                    assert(rooted(
                                        snapshot,
                                        roots,
                                        picks0,
                                        picks0.len() as int,
                                        frontier_id(index@, frontier0, frontier0.len() - 1),
                                    ));
                                    assert(reaches(snapshot, roots, picks0, id));
                                }
                                return Err(e);
                            },
                            Ok(Choice::Nothing) => {
                                proof {
                                    lemma_pop(snapshot, roots, index@, picks0, frontier0);
                                }
                            },
                            Ok(Choice::Taken { wanted }) => {
                                let ghost taken = state.picks();
                                let ghost rest = state.frontier();
                                let ghost pick = taken.last();
                                let ghost deps = latest_of(
                                    snapshot.entries@[at as int].releases@,
                                ).dependencies@;
                                proof {
                                    assert(taken =~= picks0.push(pick));
                                    lemma_latest_unique(
                                        snapshot.entries@[at as int].releases@,
                                        pick.release as int,
                                        latest_index(snapshot.entries@[at as int].releases@),
                                    );
                                    assert(sourced(snapshot, pick));
                                    assert forall|i: int| 0 <= i < taken.len() implies {
                                        &&& (#[trigger] taken[i]).key.0 < index@.len()
                                        &&& index@[taken[i].key.0 as int].id@
                                            == taken[i].project_id@
                                        &&& sourced(snapshot, taken[i])
                                    } by {
                                        if i < picks0.len() {
                                            assert(taken[i] == picks0[i]);
                                        }
                                    }
                                    lemma_picks_bounded(snapshot, index@, &state);
                                    lemma_take(snapshot, roots, index@, picks0, frontier0, pick);
                                    assert forall|x: int| 0 <= x < wanted@.len() implies rooted(
                                        snapshot,
                                        roots,
                                        taken,
                                        taken.len() as int,
                                        #[trigger] wanted@[x]@,
                                    ) by {
                                        assert(wanted@[x]@ == wanted_ids(
                                            deps,
                                            state.downloaded(),
                                        )[x]);
                                        lemma_wanted_sound(deps, state.downloaded(), x);
                                        assert(needs(snapshot, taken[picks0.len() as int], wanted@[x]@));
                                    }
                                }
                                let limit = snapshot.entries.len();
                                assert(depth < limit);
                                let below: usize = depth + 1;
                                let mut w: usize = 0;
                                while w < wanted.len()
                                    invariant
                                        w <= wanted@.len(),
                                        state.wf(),
                                        state.fits(index),
                                        state.picks() == taken,
                                        below <= taken.len(),
                                        first == old(index)@,
                                        first.is_prefix_of(index@),
                                        all_sourced(snapshot, index@, taken),
                                        frontier_ok(
                                            snapshot,
                                            roots,
                                            index@,
                                            taken,
                                            state.frontier(),
                                        ),
                                        seeds_ok(snapshot, roots, index@, taken, state.frontier()),
                                        needs_ok(
                                            snapshot,
                                            index@,
                                            taken,
                                            taken.len() - 1,
                                            state.frontier(),
                                        ),
                                        forall|x: int|
                                            0 <= x < wanted@.len() ==> rooted(
                                                snapshot,
                                                roots,
                                                taken,
                                                taken.len() as int,
                                                #[trigger] wanted@[x]@,
                                            ),
                                        forall|x: int|
                                            0 <= x < w ==> served(
                                                snapshot,
                                                index@,
                                                taken,
                                                state.frontier(),
                                                #[trigger] wanted@[x]@,
                                            ),
                                    decreases wanted@.len() - w,
                                {
                                    let id = &wanted[w];
                                    let ghost held = index@;
                                    let ghost queue = state.frontier();
                                    let known = index.find(id);
                                    match known {
                                        Some(dep) => {
                                            state.enqueue(&*index, dep, below);
                                            proof {
                                                lemma_push(
                                                    snapshot,
                                                    roots,
                                                    held,
                                                    held,
                                                    taken,
                                                    taken.len() - 1,
                                                    queue,
                                                    (dep, below),
                                                );
                                                assert forall|x: int| 0 <= x < w implies served(
                                                    snapshot,
                                                    index@,
                                                    taken,
                                                    state.frontier(),
                                                    #[trigger] wanted@[x]@,
                                                ) by {
                                                    lemma_served_after_push(
                                                        snapshot,
                                                        held,
                                                        held,
                                                        taken,
                                                        queue,
                                                        (dep, below),
                                                        wanted@[x]@,
                                                    );
                                                }
                                            }
                                        },
                                        None => {
                                            let entry = snapshot.find(id);
                                            match entry {
                                                None => {},
                                                Some(e) => {
                                                    let dep = index.insert(
                                                        snapshot.entries[e].project.duplicate(),
                                                    );
                                                    proof {
                                                        assert(held.is_prefix_of(index@));
                                                        assert forall|i: int|
                                                            0 <= i < taken.len() implies index@[(
                                                        #[trigger] taken[i]).key.0 as int]
                                                            == held[taken[i].key.0 as int] by {}
                                                        assert(snapshot.ids()[e as int] == id@);
                                                    }
                                                    state.enqueue(&*index, dep, below);
                                                    proof {
                                                        lemma_push(
                                                            snapshot,
                                                            roots,
                                                            held,
                                                            index@,
                                                            taken,
                                                            taken.len() - 1,
                                                            queue,
                                                            (dep, below),
                                                        );
                                                        assert forall|x: int|
                                                            0 <= x < w implies served(
                                                            snapshot,
                                                            index@,
                                                            taken,
                                                            state.frontier(),
                                                            #[trigger] wanted@[x]@,
                                                        ) by {
                                                            lemma_served_after_push(
                                                                snapshot,
                                                                held,
                                                                index@,
                                                                taken,
                                                                queue,
                                                                (dep, below),
                                                                wanted@[x]@,
                                                            );
                                                        }
                                                    }
                                                },
                                            }
                                        },
                                    }
                                    w = w + 1;
                                }
                                proof {
                                    let done = state.downloaded();
                                    assert forall|j: int, id: Seq<char>|
                                        0 <= j < taken.len() && #[trigger] needs(
                                            snapshot,
                                            taken[j],
                                            id,
                                        ) implies served(
                                        snapshot,
                                        index@,
                                        taken,
                                        state.frontier(),
                                        id,
                                    ) by {
                                        if j == taken.len() - 1 {
                                            let d = choose|d: int|
                                                0 <= d < deps.len() && (#[trigger] deps[d]).kind
                                                    == DependencyKind::Required
                                                    && deps[d].project_id@ == id;
                                            lemma_wanted_complete(deps, done, d);
                                            if done.contains(id) {
                                                let i = choose|i: int|
                                                    0 <= i < done.len() && done[i] == id;
                                                assert(taken[i].project_id@ == id);
                                            } else {
                                                let x = choose|x: int|
                                                    0 <= x < wanted_ids(deps, done).len()
                                                        && wanted_ids(deps, done)[x] == id;
                                                assert(wanted@[x]@ == id);
                                            }
                                        }
                                    }
                                }
                            },
                        }
                    },
                }
            },
        }
    }
}

/// Two picks of one project that both come from the snapshot name the
/// same release.
proof fn lemma_same_release(snapshot: &Snapshot, a: Pick, b: Pick)
    requires
        sourced(snapshot, a),
        sourced(snapshot, b),
        a.project_id@ == b.project_id@,
    ensures
        a.release == b.release,
        forall|id: Seq<char>| needs(snapshot, a, id) == needs(snapshot, b, id),
{
    lemma_latest_unique(
        snapshot.releases_of(a.project_id@),
        a.release as int,
        b.release as int,
    );
}

/// A project that has a reason to be visited after a trail whose picks are
/// all among `picks` is settled by `picks`.
proof fn lemma_rooted_is_settled(
    snapshot: &Snapshot,
    seeds: Seq<Seq<char>>,
    picks: Seq<Pick>,
    trail: Seq<Pick>,
    upto: int,
    id: Seq<char>,
)
    requires
        is_resolution(snapshot, seeds, picks),
        forall|i: int| 0 <= i < picks.len() ==> sourced(snapshot, #[trigger] picks[i]),
        forall|i: int| 0 <= i < trail.len() ==> sourced(snapshot, #[trigger] trail[i]),
        forall|i: int|
            0 <= i < upto && i < trail.len() ==> picked(picks, (#[trigger] trail[i]).project_id@),
        rooted(snapshot, seeds, trail, upto, id),
    ensures
        settled(snapshot, picks, id),
{
    if seeds.contains(id) {
        let s = choose|s: int| 0 <= s < seeds.len() && seeds[s] == id;
        assert(settled(snapshot, picks, seeds[s]));
    } else {
        let j = choose|j: int|
            0 <= j < upto && j < trail.len() && #[trigger] needs(snapshot, trail[j], id);
        assert(picked(picks, trail[j].project_id@));
        let k = choose|k: int|
            0 <= k < picks.len() && (#[trigger] picks[k]).project_id@ == trail[j].project_id@;
        lemma_same_release(snapshot, picks[k], trail[j]);
        assert(needs(snapshot, picks[k], id));
    }
}

/// Every pick of a trail is among the picks of a resolution.
proof fn lemma_trail_is_picked(
    snapshot: &Snapshot,
    seeds: Seq<Seq<char>>,
    picks: Seq<Pick>,
    trail: Seq<Pick>,
    upto: int,
)
    requires
        is_resolution(snapshot, seeds, picks),
        forall|i: int| 0 <= i < picks.len() ==> sourced(snapshot, #[trigger] picks[i]),
        forall|i: int|
            0 <= i < trail.len() ==> sourced(snapshot, #[trigger] trail[i]) && rooted(
                snapshot,
                seeds,
                trail,
                i,
                trail[i].project_id@,
            ),
        0 <= upto <= trail.len(),
    ensures
        forall|i: int| 0 <= i < upto ==> picked(picks, (#[trigger] trail[i]).project_id@),
    decreases upto,
{
    if upto > 0 {
        lemma_trail_is_picked(snapshot, seeds, picks, trail, upto - 1);
        let last = trail[upto - 1];
        assert(sourced(snapshot, last));
        lemma_rooted_is_settled(snapshot, seeds, picks, trail, upto - 1, last.project_id@);
    }
}

/// A run that can reach a project whose latest release has no file does
/// not succeed: no resolution of the seeds exists then. Together with what
/// [`resolve`] ensures, a run fails exactly when it can reach such a
/// project.
pub proof fn lemma_resolution_reaches_no_broken_project(
    snapshot: &Snapshot,
    seeds: Seq<Seq<char>>,
    picks: Seq<Pick>,
    trail: Seq<Pick>,
    id: Seq<char>,
)
    requires
        is_resolution(snapshot, seeds, picks),
        forall|i: int| 0 <= i < picks.len() ==> sourced(snapshot, #[trigger] picks[i]),
        reaches(snapshot, seeds, trail, id),
    ensures
        !broken(snapshot.releases_of(id)),
{
    lemma_trail_is_picked(snapshot, seeds, picks, trail, trail.len() as int);
    lemma_rooted_is_settled(snapshot, seeds, picks, trail, trail.len() as int, id);
    if picked(picks, id) {
        let k = choose|k: int| 0 <= k < picks.len() && (#[trigger] picks[k]).project_id@ == id;
        assert(sourced(snapshot, picks[k]));
        lemma_latest_unique(
            snapshot.releases_of(id),
            picks[k].release as int,
            latest_index(snapshot.releases_of(id)),
        );
    }
}

} // verus!
