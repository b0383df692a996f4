//! The coverage matrix: which projects support which canonical version, the
//! versions with the broadest support first.

use crate::catalog::{Project, ProjectKey};
use crate::version::{parse_spec, ParseError, SemanticVersion};
use itertools::Itertools;
use vstd::prelude::*;

verus! {

/// One observation: the project under this key declares a label that
/// parses to this version.
pub type Observation = (ProjectKey, SemanticVersion);

/// The projects that support one version.
#[derive(Debug, Clone)]
pub struct VersionGroup {
    pub version: SemanticVersion,
    pub members: Vec<ProjectKey>,
}

/// The observations that the labels of one project give, in the order of
/// the labels. A label without a canonical version gives none.
pub open spec fn label_observations(key: ProjectKey, labels: Seq<String>) -> Seq<Observation>
    decreases labels.len(),
{
    if labels.len() == 0 {
        Seq::empty()
    } else {
        let before = label_observations(key, labels.drop_last());
        match parse_spec(labels.last()@) {
            Ok(version) => before.push((key, version)),
            Err(_) => before,
        }
    }
}

/// The observations of a list of projects: one for each pair of a project
/// and one of its labels that has a canonical version.
pub open spec fn observations(projects: Seq<(ProjectKey, &Project)>) -> Seq<Observation>
    decreases projects.len(),
{
    if projects.len() == 0 {
        Seq::empty()
    } else {
        observations(projects.drop_last()) + label_observations(
            projects.last().0,
            projects.last().1.game_versions@,
        )
    }
}

/// The sum of the group sizes.
pub open spec fn total_members(groups: Seq<VersionGroup>) -> nat
    decreases groups.len(),
{
    if groups.len() == 0 {
        0
    } else {
        total_members(groups.drop_last()) + groups.last().members@.len()
    }
}

/// The versions of the observations, each once, in the order in which
/// they are first seen.
pub open spec fn versions_of(obs: Seq<Observation>) -> Seq<SemanticVersion>
    decreases obs.len(),
{
    if obs.len() == 0 {
        Seq::empty()
    } else {
        let before = versions_of(obs.drop_last());
        if before.contains(obs.last().1) {
            before
        } else {
            before.push(obs.last().1)
        }
    }
}

/// The projects observed with `version`, each once, in the order in which
/// they are first seen with it.
pub open spec fn members_of(obs: Seq<Observation>, version: SemanticVersion) -> Seq<ProjectKey>
    decreases obs.len(),
{
    if obs.len() == 0 {
        Seq::empty()
    } else {
        let before = members_of(obs.drop_last(), version);
        if obs.last().1 == version && !before.contains(obs.last().0) {
            before.push(obs.last().0)
        } else {
            before
        }
    }
}

/// A group as a value: its version, and its members in their order.
pub type GroupValue = (SemanticVersion, Seq<ProjectKey>);

/// The values of a list of groups.
pub open spec fn group_values(groups: Seq<VersionGroup>) -> Seq<GroupValue> {
    Seq::new(groups.len(), |g: int| (groups[g].version, groups[g].members@))
}

/// The groups of `obs` in the order in which their versions are first
/// seen.
pub open spec fn grouping_of(obs: Seq<Observation>) -> Seq<GroupValue> {
    Seq::new(
        versions_of(obs).len(),
        |g: int| (versions_of(obs)[g], members_of(obs, versions_of(obs)[g])),
    )
}

/// Whether `groups` holds the groups of `obs` in the order in which their
/// versions are first seen.
pub open spec fn in_first_seen_order(groups: Seq<VersionGroup>, obs: Seq<Observation>) -> bool {
    &&& groups.len() == versions_of(obs).len()
    &&& forall|g: int|
        0 <= g < groups.len() ==> (#[trigger] groups[g]).version == versions_of(obs)[g]
            && groups[g].members@ == members_of(obs, groups[g].version)
}

/// Whether `out` is `source` ranked: it holds each group of `source` once,
/// the group at `k` being the one that `source` has at `from[k]`; a larger
/// group stands before a smaller one, and of two groups of one size the
/// one that stands later in `source` comes first.
pub open spec fn is_ranking(out: Seq<GroupValue>, source: Seq<GroupValue>, from: Seq<int>) -> bool {
    &&& from.len() == out.len()
    &&& out.len() == source.len()
    &&& forall|k: int|
        0 <= k < from.len() ==> 0 <= #[trigger] from[k] < source.len() && out[k]
            == source[from[k]]
    &&& from.no_duplicates()
    &&& forall|g: int| 0 <= g < source.len() ==> from.contains(g)
    &&& forall|a: int, b: int|
        0 <= a < b < out.len() ==> (#[trigger] out[a]).1.len() > (#[trigger] out[b]).1.len() || (
        out[a].1.len() == out[b].1.len() && from[a] > from[b])
}

/// No version has two groups.
pub open spec fn versions_distinct(groups: Seq<VersionGroup>) -> bool {
    forall|a: int, b: int|
        0 <= a < b < groups.len() ==> (#[trigger] groups[a]).version != (
        #[trigger] groups[b]).version
}

/// No group is empty or names a project twice.
pub open spec fn groups_proper(groups: Seq<VersionGroup>) -> bool {
    forall|g: int|
        0 <= g < groups.len() ==> (#[trigger] groups[g]).members@.no_duplicates()
            && groups[g].members@.len() > 0
}

/// A project is in a group exactly if it was observed with the group's
/// version.
pub open spec fn members_match(groups: Seq<VersionGroup>, obs: Seq<Observation>) -> bool {
    forall|g: int, key: ProjectKey|
        0 <= g < groups.len() ==> (#[trigger] groups[g].members@.contains(key) <==> obs.contains(
            (key, groups[g].version),
        ))
}

/// Whether some group has the version `version`.
pub open spec fn has_version(groups: Seq<VersionGroup>, version: SemanticVersion) -> bool {
    exists|g: int| 0 <= g < groups.len() && (#[trigger] groups[g]).version == version
}

/// Every observed version has a group.
pub open spec fn versions_covered(groups: Seq<VersionGroup>, obs: Seq<Observation>) -> bool {
    forall|k: int| 0 <= k < obs.len() ==> has_version(groups, (#[trigger] obs[k]).1)
}

/// Whether `groups` is the grouping of `obs` by version, in any order.
pub open spec fn is_grouping(groups: Seq<VersionGroup>, obs: Seq<Observation>) -> bool {
    &&& versions_distinct(groups)
    &&& groups_proper(groups)
    &&& members_match(groups, obs)
    &&& versions_covered(groups, obs)
}

/// Whether no group is larger than one before it.
pub open spec fn largest_first(groups: Seq<VersionGroup>) -> bool {
    forall|a: int, b: int|
        0 <= a <= b < groups.len() ==> (#[trigger] groups[a]).members@.len() >= (
        #[trigger] groups[b]).members@.len()
}

/// Reads the observations off a list of projects.
pub fn observe(projects: &Vec<(ProjectKey, &Project)>) -> (r: Vec<Observation>)
    ensures
        r@ == observations(projects@),
{
    let mut out: Vec<Observation> = Vec::new();
    let mut i: usize = 0;
    while i < projects.len()
        invariant
            i <= projects@.len(),
            out@ == observations(projects@.subrange(0, i as int)),
        decreases projects@.len() - i,
    {
        let key = projects[i].0;
        let labels = &projects[i].1.game_versions;
        let ghost before = out@;
        let mut j: usize = 0;
        while j < labels.len()
            invariant
                j <= labels@.len(),
                out@ == before + label_observations(key, labels@.subrange(0, j as int)),
            decreases labels@.len() - j,
        {
            assert(labels@.subrange(0, j + 1).drop_last() =~= labels@.subrange(0, j as int));
            let ghost so_far = label_observations(key, labels@.subrange(0, j as int));
            match SemanticVersion::parse(labels[j].as_str()) {
                Ok(version) => {
                    out.push((key, version));
                    assert(out@ =~= before + so_far.push((key, version)));
                },
                Err(_) => {},
            }
            j = j + 1;
        }
        assert(labels@.subrange(0, j as int) =~= labels@);
        assert(projects@.subrange(0, i + 1).drop_last() =~= projects@.subrange(0, i as int));
        i = i + 1;
    }
    assert(projects@.subrange(0, i as int) =~= projects@);
    out
}

/// The position of the group of `version`, if there is one.
fn find_group(groups: &Vec<VersionGroup>, version: SemanticVersion) -> (r: Option<usize>)
    ensures
        r is None ==> !has_version(groups@, version),
        r matches Some(g) ==> g < groups@.len() && groups@[g as int].version == version,
{
    let mut g: usize = 0;
    while g < groups.len()
        invariant
            g <= groups@.len(),
            forall|h: int| 0 <= h < g ==> (#[trigger] groups@[h]).version != version,
        decreases groups@.len() - g,
    {
        if groups[g].version == version {
            return Some(g);
        }
        g = g + 1;
    }
    None
}

/// Whether `key` is among `members`.
fn has_member(members: &Vec<ProjectKey>, key: ProjectKey) -> (r: bool)
    ensures
        r == members@.contains(key),
{
    let mut i: usize = 0;
    while i < members.len()
        invariant
            i <= members@.len(),
            forall|k: int| 0 <= k < i ==> members@[k] != key,
        decreases members@.len() - i,
    {
        if members[i] == key {
            return true;
        }
        i = i + 1;
    }
    false
}

/// What a sequence holds after a push.
proof fn lemma_contains_push<A>(s: Seq<A>, a: A, x: A)
    ensures
        s.push(a).contains(x) <==> (s.contains(x) || x == a),
{
    if s.contains(x) {
        let i = choose|i: int| 0 <= i < s.len() && s[i] == x;
        assert(s.push(a)[i] == x);
    }
    if x == a {
        assert(s.push(a)[s.len() as int] == x);
    }
    if s.push(a).contains(x) {
        let i = choose|i: int| 0 <= i < s.push(a).len() && s.push(a)[i] == x;
        if i < s.len() {
            assert(s[i] == x);
        }
    }
}

/// Groups of the same sizes have the same total.
proof fn lemma_total_same(groups: Seq<VersionGroup>, after: Seq<VersionGroup>)
    requires
        after.len() == groups.len(),
        forall|h: int|
            0 <= h < groups.len() ==> (#[trigger] after[h]).members@.len()
                == groups[h].members@.len(),
    ensures
        total_members(after) == total_members(groups),
    decreases groups.len(),
{
    if groups.len() > 0 {
        assert forall|h: int| 0 <= h < groups.len() - 1 implies (#[trigger] after.drop_last()[h]).members@.len()
            == groups.drop_last()[h].members@.len() by {
            assert(after.drop_last()[h] == after[h]);
        }
        lemma_total_same(groups.drop_last(), after.drop_last());
        assert(after.last() == after[groups.len() - 1]);
    }
}

/// One more member in one group is one more in total.
proof fn lemma_total_grows(groups: Seq<VersionGroup>, after: Seq<VersionGroup>, g: int)
    requires
        0 <= g < groups.len(),
        after.len() == groups.len(),
        forall|h: int|
            0 <= h < groups.len() && h != g ==> (#[trigger] after[h]).members@.len()
                == groups[h].members@.len(),
        after[g].members@.len() == groups[g].members@.len() + 1,
    ensures
        total_members(after) == total_members(groups) + 1,
    decreases groups.len(),
{
    let last = groups.len() - 1;
    assert(after.last() == after[last]);
    if g == last {
        assert forall|h: int| 0 <= h < last implies (#[trigger] after.drop_last()[h]).members@.len()
            == groups.drop_last()[h].members@.len() by {
            assert(after.drop_last()[h] == after[h]);
        }
        lemma_total_same(groups.drop_last(), after.drop_last());
    } else {
        assert forall|h: int| 0 <= h < last && h != g implies (
        #[trigger] after.drop_last()[h]).members@.len() == groups.drop_last()[h].members@.len() by {
            assert(after.drop_last()[h] == after[h]);
        }
        assert(after.drop_last()[g] == after[g]);
        lemma_total_grows(groups.drop_last(), after.drop_last(), g);
    }
}

/// A version that was not observed has no members.
proof fn lemma_unseen_members(obs: Seq<Observation>, version: SemanticVersion)
    requires
        forall|k: int| 0 <= k < obs.len() ==> (#[trigger] obs[k]).1 != version,
    ensures
        members_of(obs, version) == Seq::<ProjectKey>::empty(),
    decreases obs.len(),
{
    if obs.len() > 0 {
        assert forall|k: int| 0 <= k < obs.drop_last().len() implies (
        #[trigger] obs.drop_last()[k]).1 != version by {
            assert(obs.drop_last()[k] == obs[k]);
        }
        lemma_unseen_members(obs.drop_last(), version);
        assert(obs.last() == obs[obs.len() - 1]);
    }
}

/// A first observation of a version opens a group.
proof fn lemma_new_group(
    groups: Seq<VersionGroup>,
    obs: Seq<Observation>,
    seen: Observation,
    added: VersionGroup,
)
    requires
        is_grouping(groups, obs),
        in_first_seen_order(groups, obs),
        !has_version(groups, seen.1),
        added.version == seen.1,
        added.members@ == seq![seen.0],
    ensures
        is_grouping(groups.push(added), obs.push(seen)),
        in_first_seen_order(groups.push(added), obs.push(seen)),
        total_members(groups.push(added)) == total_members(groups) + 1,
{
    let after = groups.push(added);
    let more = obs.push(seen);
    assert(after.drop_last() =~= groups);
    assert(more.drop_last() =~= obs);
    assert(!versions_of(obs).contains(seen.1)) by {
        if versions_of(obs).contains(seen.1) {
            let x = choose|x: int| 0 <= x < versions_of(obs).len() && versions_of(obs)[x] == seen.1;
            assert(groups[x].version == seen.1);
        }
    }
    assert forall|k: int| 0 <= k < obs.len() implies (#[trigger] obs[k]).1 != seen.1 by {
        assert(has_version(groups, obs[k].1));
    }
    lemma_unseen_members(obs, seen.1);
    assert(members_of(more, seen.1) =~= seq![seen.0]);
    assert forall|g: int| 0 <= g < after.len() implies (#[trigger] after[g]).version
        == versions_of(more)[g] && after[g].members@ == members_of(more, after[g].version) by {
        if g < groups.len() {
            assert(after[g] == groups[g]);
            assert(groups[g].version != seen.1);
        }
    }
    assert forall|a: int, b: int| 0 <= a < b < after.len() implies (#[trigger] after[a]).version
        != (#[trigger] after[b]).version by {
        if b == groups.len() {
            assert(groups[a].version != seen.1);
        } else {
            assert(groups[a].version != groups[b].version);
        }
    }
    assert forall|g: int| 0 <= g < after.len() implies (#[trigger] after[g]).members@.no_duplicates()
        && after[g].members@.len() > 0 by {
        if g < groups.len() {
            assert(after[g] == groups[g]);
        }
    }
    assert forall|g: int, key: ProjectKey| 0 <= g < after.len() implies (
    #[trigger] after[g].members@.contains(key) <==> more.contains((key, after[g].version))) by {
        lemma_contains_push(obs, seen, (key, after[g].version));
        if g < groups.len() {
            assert(after[g] == groups[g]);
            assert(groups[g].version != seen.1);
            assert(groups[g].members@.contains(key) <==> obs.contains((key, groups[g].version)));
        } else {
            if obs.contains((key, seen.1)) {
                let k = choose|k: int| 0 <= k < obs.len() && obs[k] == (key, seen.1);
                assert(has_version(groups, obs[k].1));
            }
            if key == seen.0 {
                assert(added.members@[0] == key);
            }
        }
    }
    assert forall|k: int| 0 <= k < more.len() implies has_version(after, (#[trigger] more[k]).1) by {
        if k < obs.len() {
            assert(has_version(groups, obs[k].1));
            let g = choose|g: int| 0 <= g < groups.len() && (#[trigger] groups[g]).version == obs[k].1;
            assert(after[g].version == more[k].1);
        } else {
            assert(after[groups.len() as int].version == more[k].1);
        }
    }
}

/// A project observed for the first time with a known version joins that
/// version's group.
proof fn lemma_new_member(
    groups: Seq<VersionGroup>,
    after: Seq<VersionGroup>,
    obs: Seq<Observation>,
    seen: Observation,
    at: int,
)
    requires
        is_grouping(groups, obs),
        0 <= at < groups.len(),
        groups[at].version == seen.1,
        !groups[at].members@.contains(seen.0),
        after.len() == groups.len(),
        forall|h: int| 0 <= h < groups.len() && h != at ==> #[trigger] after[h] == groups[h],
        after[at].version == seen.1,
        after[at].members@ == groups[at].members@.push(seen.0),
        in_first_seen_order(groups, obs),
    ensures
        is_grouping(after, obs.push(seen)),
        in_first_seen_order(after, obs.push(seen)),
        total_members(after) == total_members(groups) + 1,
{
    let more = obs.push(seen);
    assert(more.drop_last() =~= obs);
    assert(versions_of(obs)[at] == seen.1);
    assert forall|g: int| 0 <= g < after.len() implies (#[trigger] after[g]).version
        == versions_of(more)[g] && after[g].members@ == members_of(more, after[g].version) by {
        if g != at {
            assert(after[g] == groups[g]);
            if g < at {
                assert(groups[g].version != groups[at].version);
            } else {
                assert(groups[at].version != groups[g].version);
            }
        }
    }
    assert forall|a: int, b: int| 0 <= a < b < after.len() implies (#[trigger] after[a]).version
        != (#[trigger] after[b]).version by {
        assert(after[a].version == groups[a].version);
        assert(after[b].version == groups[b].version);
        assert(groups[a].version != groups[b].version);
    }
    assert forall|g: int| 0 <= g < after.len() implies (#[trigger] after[g]).members@.no_duplicates()
        && after[g].members@.len() > 0 by {
        assert(groups[g].members@.no_duplicates());
        if g == at {
            let old_members = groups[at].members@;
            assert forall|i: int, j: int|
                0 <= i < after[g].members@.len() && 0 <= j < after[g].members@.len() && i
                    != j implies after[g].members@[i] != after[g].members@[j] by {
                if i < old_members.len() && j < old_members.len() {
                    assert(old_members[i] != old_members[j]);
                } else if i < old_members.len() {
                    assert(old_members.contains(old_members[i]));
                } else {
                    assert(old_members.contains(old_members[j]));
                }
            }
        }
    }
    assert forall|g: int, key: ProjectKey| 0 <= g < after.len() implies (
    #[trigger] after[g].members@.contains(key) <==> more.contains((key, after[g].version))) by {
        lemma_contains_push(obs, seen, (key, after[g].version));
        assert(groups[g].members@.contains(key) <==> obs.contains((key, groups[g].version)));
        if g == at {
            lemma_contains_push(groups[at].members@, seen.0, key);
        } else {
            assert(after[g] == groups[g]);
            if g < at {
                assert(groups[g].version != groups[at].version);
            } else {
                assert(groups[at].version != groups[g].version);
            }
        }
    }
    assert forall|k: int| 0 <= k < more.len() implies has_version(after, (#[trigger] more[k]).1) by {
        if k < obs.len() {
            assert(has_version(groups, obs[k].1));
            let g = choose|g: int| 0 <= g < groups.len() && (#[trigger] groups[g]).version == obs[k].1;
            assert(after[g].version == more[k].1);
        } else {
            assert(after[at].version == more[k].1);
        }
    }
    assert forall|h: int| 0 <= h < groups.len() && h != at implies (#[trigger] after[h]).members@.len()
        == groups[h].members@.len() by {}
    lemma_total_grows(groups, after, at);
}

/// A pair that was observed before changes nothing.
proof fn lemma_seen_again(
    groups: Seq<VersionGroup>,
    obs: Seq<Observation>,
    seen: Observation,
    at: int,
)
    requires
        is_grouping(groups, obs),
        0 <= at < groups.len(),
        groups[at].version == seen.1,
        groups[at].members@.contains(seen.0),
        in_first_seen_order(groups, obs),
    ensures
        is_grouping(groups, obs.push(seen)),
        in_first_seen_order(groups, obs.push(seen)),
        !obs.push(seen).no_duplicates(),
{
    let more = obs.push(seen);
    assert(more.drop_last() =~= obs);
    assert(versions_of(obs)[at] == seen.1);
    assert forall|g: int| 0 <= g < groups.len() implies (#[trigger] groups[g]).version
        == versions_of(more)[g] && groups[g].members@ == members_of(more, groups[g].version) by {
        if g < at {
            assert(groups[g].version != groups[at].version);
        } else if at < g {
            assert(groups[at].version != groups[g].version);
        }
    }
    assert(obs.contains((seen.0, groups[at].version)));
    let first = choose|k: int| 0 <= k < obs.len() && obs[k] == seen;
    assert(more[first] == more[obs.len() as int]);
    assert forall|g: int, key: ProjectKey| 0 <= g < groups.len() implies (
    #[trigger] groups[g].members@.contains(key) <==> more.contains((key, groups[g].version))) by {
        lemma_contains_push(obs, seen, (key, groups[g].version));
        assert(groups[g].members@.contains(key) <==> obs.contains((key, groups[g].version)));
    }
    assert forall|k: int| 0 <= k < more.len() implies has_version(groups, (#[trigger] more[k]).1) by {
        if k < obs.len() {
            assert(has_version(groups, obs[k].1));
        } else {
            assert(groups[at].version == more[k].1);
        }
    }
}

/// A shorter sequence without duplicates.
proof fn lemma_prefix_no_duplicates<A>(s: Seq<A>, a: A)
    requires
        s.push(a).no_duplicates(),
    ensures
        s.no_duplicates(),
{
    assert forall|i: int, j: int| 0 <= i < s.len() && 0 <= j < s.len() && i != j implies s[i]
        != s[j] by {
        assert(s.push(a)[i] == s[i]);
        assert(s.push(a)[j] == s[j]);
    }
}

/// Groups observations by version, the groups in the order in which their
/// versions are first seen, the members of a group in the order in which
/// they are first seen with it.
///
/// The group sizes add up to at most the number of observations, and to
/// exactly that number when no observation occurs twice.
pub fn group(obs: &Vec<Observation>) -> (groups: Vec<VersionGroup>)
    ensures
        is_grouping(groups@, obs@),
        in_first_seen_order(groups@, obs@),
        total_members(groups@) <= obs@.len(),
        obs@.no_duplicates() ==> total_members(groups@) == obs@.len(),
{
    let mut groups: Vec<VersionGroup> = Vec::new();
    let mut k: usize = 0;
    while k < obs.len()
        invariant
            k <= obs@.len(),
            is_grouping(groups@, obs@.subrange(0, k as int)),
            in_first_seen_order(groups@, obs@.subrange(0, k as int)),
            total_members(groups@) <= k,
            obs@.subrange(0, k as int).no_duplicates() ==> total_members(groups@) == k,
        decreases obs@.len() - k,
    {
        let key = obs[k].0;
        let version = obs[k].1;
        let ghost done = obs@.subrange(0, k as int);
        let ghost before = groups@;
        proof {
            assert(obs@.subrange(0, k + 1) =~= done.push((key, version)));
            if obs@.subrange(0, k + 1).no_duplicates() {
                lemma_prefix_no_duplicates(done, (key, version));
            }
        }
        match find_group(&groups, version) {
            None => {
                let mut members: Vec<ProjectKey> = Vec::with_capacity(1);
                members.push(key);
                let added = VersionGroup { version, members };
                proof {
                    assert(added.members@ =~= seq![key]);
                    lemma_new_group(before, done, (key, version), added);
                }
                groups.push(added);
            },
            Some(at) => {
                if has_member(&groups[at].members, key) {
                    proof {
                        lemma_seen_again(before, done, (key, version), at as int);
                    }
                } else {
                    groups[at].members.push(key);
                    proof {
                        lemma_new_member(before, groups@, done, (key, version), at as int);
                    }
                }
            },
        }
        k = k + 1;
    }
    assert(obs@.subrange(0, k as int) =~= obs@);
    groups
}

/// Sorts pairs by their first components with `Itertools::sorted_by_key`
/// of itertools, which sorts a `Vec` of the items with the stable
/// `sort_by_key` of slices. The result holds the pairs of `sizes`, each as
/// often as `sizes` does, in ascending order of their first components;
/// pairs with equal first components keep the order they have in `sizes`.
#[verifier::external_body]
fn sorted_by_size(sizes: Vec<(usize, usize)>) -> (r: Vec<(usize, usize)>)
    ensures
        r@.to_multiset() == sizes@.to_multiset(),
        forall|i: int, j: int| 0 <= i <= j < r@.len() ==> r@[i].0 <= r@[j].0,
        forall|i: int, j: int|
            0 <= i < j < r@.len() && r@[i].0 == r@[j].0 ==> exists|a: int, b: int|
                0 <= a < b < sizes@.len() && sizes@[a] == r@[i] && sizes@[b] == r@[j],
{
    sizes.into_iter().sorted_by_key(|pair| pair.0).collect()
}

/// The sum of the first components.
spec fn sum_of_sizes(sizes: Seq<(usize, usize)>) -> nat
    decreases sizes.len(),
{
    if sizes.len() == 0 {
        0
    } else {
        sum_of_sizes(sizes.drop_last()) + sizes.last().0 as nat
    }
}

/// Taking one pair out lowers the sum by its first component.
proof fn lemma_sum_remove(sizes: Seq<(usize, usize)>, i: int)
    requires
        0 <= i < sizes.len(),
    ensures
        sum_of_sizes(sizes) == sum_of_sizes(sizes.remove(i)) + sizes[i].0,
    decreases sizes.len(),
{
    if i == sizes.len() - 1 {
        assert(sizes.remove(i) =~= sizes.drop_last());
    } else {
        assert(sizes.remove(i).drop_last() =~= sizes.drop_last().remove(i));
        assert(sizes.remove(i).last() == sizes.last());
        lemma_sum_remove(sizes.drop_last(), i);
    }
}

/// The sum does not depend on the order of the pairs.
proof fn lemma_sum_rearranged(a: Seq<(usize, usize)>, b: Seq<(usize, usize)>)
    requires
        a.to_multiset() == b.to_multiset(),
    ensures
        sum_of_sizes(a) == sum_of_sizes(b),
    decreases a.len(),
{
    vstd::seq_lib::to_multiset_len(a);
    vstd::seq_lib::to_multiset_len(b);
    if a.len() > 0 {
        let x = a.last();
        assert(a.contains(x)) by {
            assert(a[a.len() - 1] == x);
        }
        vstd::seq_lib::to_multiset_contains(a, x);
        vstd::seq_lib::to_multiset_contains(b, x);
        let i = choose|i: int| 0 <= i < b.len() && b[i] == x;
        assert(a.remove(a.len() - 1) =~= a.drop_last());
        vstd::seq_lib::to_multiset_remove(a, a.len() - 1);
        vstd::seq_lib::to_multiset_remove(b, i);
        lemma_sum_rearranged(a.drop_last(), b.remove(i));
        lemma_sum_remove(b, i);
    }
}

/// Pairs that carry the group sizes add up to the total of the groups.
proof fn lemma_sizes_total(groups: Seq<VersionGroup>, sizes: Seq<(usize, usize)>)
    requires
        sizes.len() == groups.len(),
        forall|g: int| 0 <= g < groups.len() ==> (#[trigger] sizes[g]).0 == groups[g].members@.len(),
    ensures
        sum_of_sizes(sizes) == total_members(groups),
    decreases groups.len(),
{
    if groups.len() > 0 {
        assert forall|g: int| 0 <= g < groups.len() - 1 implies (#[trigger] sizes.drop_last()[g]).0
            == groups.drop_last()[g].members@.len() by {
            assert(sizes.drop_last()[g] == sizes[g]);
        }
        lemma_sizes_total(groups.drop_last(), sizes.drop_last());
        assert(sizes.last() == sizes[groups.len() - 1]);
    }
}

/// Whether two groups have the same version and the same members in the
/// same order.
pub open spec fn same_group(a: VersionGroup, b: VersionGroup) -> bool {
    a.version == b.version && a.members@ == b.members@
}

/// The groups of a grouping, ranked, are a grouping of the same
/// observations.
pub proof fn lemma_ranked_grouping(
    out: Seq<VersionGroup>,
    groups: Seq<VersionGroup>,
    from: Seq<int>,
    obs: Seq<Observation>,
)
    requires
        is_ranking(group_values(out), group_values(groups), from),
        is_grouping(groups, obs),
    ensures
        is_grouping(out, obs),
        largest_first(out),
{
    assert forall|k: int| 0 <= k < out.len() implies 0 <= from[k] < groups.len() && same_group(
        #[trigger] out[k],
        groups[from[k]],
    ) by {
        assert(group_values(out)[k] == group_values(groups)[from[k]]);
    }
    assert forall|a: int, b: int| 0 <= a < b < out.len() implies (#[trigger] out[a]).version != (
    #[trigger] out[b]).version by {
        assert(from[a] != from[b]);
        if from[a] < from[b] {
            assert(groups[from[a]].version != groups[from[b]].version);
        } else {
            assert(groups[from[b]].version != groups[from[a]].version);
        }
    }
    assert forall|g: int| 0 <= g < out.len() implies (#[trigger] out[g]).members@.no_duplicates()
        && out[g].members@.len() > 0 by {
        assert(groups[from[g]].members@.no_duplicates());
    }
    assert forall|g: int, key: ProjectKey| 0 <= g < out.len() implies (
    #[trigger] out[g].members@.contains(key) <==> obs.contains((key, out[g].version))) by {
        assert(same_group(out[g], groups[from[g]]));
        assert(groups[from[g]].members@.contains(key) <==> obs.contains(
            (key, groups[from[g]].version),
        ));
    }
    assert forall|k: int| 0 <= k < obs.len() implies has_version(out, (#[trigger] obs[k]).1) by {
        assert(has_version(groups, obs[k].1));
        let g = choose|g: int| 0 <= g < groups.len() && (#[trigger] groups[g]).version == obs[k].1;
        assert(from.contains(g));
        let at = choose|at: int| 0 <= at < from.len() && from[at] == g;
        assert(same_group(out[at], groups[from[at]]));
    }
    assert forall|a: int, b: int| 0 <= a <= b < out.len() implies (
    #[trigger] out[a]).members@.len() >= (#[trigger] out[b]).members@.len() by {
        if a < b {
            assert(group_values(out)[a].1.len() >= group_values(out)[b].1.len());
        }
    }
}

/// A copy of a list of keys.
fn copy_keys(keys: &Vec<ProjectKey>) -> (r: Vec<ProjectKey>)
    ensures
        r@ == keys@,
{
    let mut out: Vec<ProjectKey> = Vec::with_capacity(keys.len());
    let mut i: usize = 0;
    while i < keys.len()
        invariant
            i <= keys@.len(),
            out@ == keys@.subrange(0, i as int),
        decreases keys@.len() - i,
    {
        out.push(keys[i]);
        i = i + 1;
        assert(out@ =~= keys@.subrange(0, i as int));
    }
    assert(keys@.subrange(0, i as int) =~= keys@);
    out
}

/// Puts the groups in the order of their sizes, the largest first. Of two
/// groups of one size, the one that stands later in `groups` comes first.
pub fn rank(groups: &Vec<VersionGroup>) -> (out: Vec<VersionGroup>)
    ensures
        exists|from: Seq<int>| is_ranking(group_values(out@), group_values(groups@), from),
        total_members(out@) == total_members(groups@),
{
    let n = groups.len();
    let mut sizes: Vec<(usize, usize)> = Vec::with_capacity(n);
    let mut g: usize = 0;
    while g < n
        invariant
            n == groups@.len(),
            g <= n,
            sizes@.len() == g,
            forall|h: int|
                0 <= h < g ==> (#[trigger] sizes@[h]).0 == groups@[h].members@.len() && sizes@[h].1
                    == h,
        decreases n - g,
    {
        sizes.push((groups[g].members.len(), g));
        g = g + 1;
    }
    let ghost listed = sizes@;
    let order = sorted_by_size(sizes);
    proof {
        vstd::seq_lib::to_multiset_len(listed);
        vstd::seq_lib::to_multiset_len(order@);
        assert forall|x: int| 0 <= x < n implies (#[trigger] order@[x]).1 < n && order@[x]
            == listed[order@[x].1 as int] by {
            assert(order@.contains(order@[x]));
            vstd::seq_lib::to_multiset_contains(order@, order@[x]);
            vstd::seq_lib::to_multiset_contains(listed, order@[x]);
            let h = choose|h: int| 0 <= h < listed.len() && listed[h] == order@[x];
            assert(listed[h].1 == h);
        }
        lemma_sum_rearranged(order@, listed);
        lemma_sizes_total(groups@, listed);
        assert(order@.subrange(0, n as int) =~= order@);
    }
    let mut out: Vec<VersionGroup> = Vec::with_capacity(n);
    let ghost mut from: Seq<int> = Seq::empty();
    let mut k: usize = 0;
    while k < n
        invariant
            n == groups@.len(),
            order@.len() == n,
            k <= n,
            out@.len() == k,
            from.len() == k,
            forall|x: int| 0 <= x < n ==> (#[trigger] order@[x]).1 < n && order@[x].0
                == groups@[order@[x].1 as int].members@.len(),
            forall|x: int| 0 <= x < k ==> #[trigger] from[x] == order@[n - 1 - x].1,
            forall|x: int| 0 <= x < k ==> same_group(#[trigger] out@[x], groups@[from[x]]),
            total_members(out@) + sum_of_sizes(order@.subrange(0, n - k)) == sum_of_sizes(order@),
        decreases n - k,
    {
        let pair = order[n - 1 - k];
        let source = &groups[pair.1];
        let copy = VersionGroup { version: source.version, members: copy_keys(&source.members) };
        proof {
            assert(order@.subrange(0, n - k).drop_last() =~= order@.subrange(0, n - k - 1));
            assert(out@.push(copy).drop_last() =~= out@);
            from = from.push(pair.1 as int);
        }
        out.push(copy);
        k = k + 1;
    }
    proof {
        assert(order@.subrange(0, n - k) =~= Seq::<(usize, usize)>::empty());
        let ranked = group_values(out@);
        let source = group_values(groups@);
        assert forall|a: int, b: int| 0 <= a < b < ranked.len() implies (
        #[trigger] ranked[a]).1.len() > (#[trigger] ranked[b]).1.len() || (ranked[a].1.len()
            == ranked[b].1.len() && from[a] > from[b]) by {
            assert(same_group(out@[a], groups@[from[a]]));
            assert(same_group(out@[b], groups@[from[b]]));
            let low = order@[n - 1 - b];
            let high = order@[n - 1 - a];
            assert(low.0 <= high.0);
            if low.0 == high.0 {
                let (x, y) = choose|x: int, y: int|
                    0 <= x < y < listed.len() && listed[x] == low && listed[y] == high;
                assert(listed[x].1 == x && listed[y].1 == y);
            }
        }
        assert forall|k: int| 0 <= k < from.len() implies 0 <= #[trigger] from[k] < source.len()
            && ranked[k] == source[from[k]] by {
            assert(same_group(out@[k], groups@[from[k]]));
        }
        assert(listed.no_duplicates()) by {
            assert forall|i: int, j: int| 0 <= i < listed.len() && 0 <= j < listed.len() && i
                != j implies listed[i] != listed[j] by {
                assert(listed[i].1 == i && listed[j].1 == j);
            }
        }
        listed.lemma_multiset_has_no_duplicates();
        order@.lemma_multiset_has_no_duplicates_conv();
        assert(from.no_duplicates()) by {
            assert forall|i: int, j: int| 0 <= i < from.len() && 0 <= j < from.len() && i
                != j implies from[i] != from[j] by {
                let a = order@[n - 1 - i];
                let b = order@[n - 1 - j];
                assert(a != b);
                assert(a == listed[a.1 as int] && b == listed[b.1 as int]);
            }
        }
        assert forall|h: int| 0 <= h < groups@.len() implies from.contains(h) by {
            assert(listed.contains(listed[h]));
            vstd::seq_lib::to_multiset_contains(listed, listed[h]);
            vstd::seq_lib::to_multiset_contains(order@, listed[h]);
            let x = choose|x: int| 0 <= x < order@.len() && order@[x] == listed[h];
            assert(from[n - 1 - x] == h);
        }
        assert(is_ranking(ranked, source, from));
    }
    out
}

/// Builds the coverage matrix of a list of projects.
///
/// Every label of every project that has a canonical version puts the
/// project's key into the group of that version. The groups come out
/// largest first; of two groups of one size, the one whose version is first
/// seen later comes first. Within a group the keys stand in the order in
/// which they are first seen with its version. No group is empty, no
/// version has two groups, and no key stands twice in a group. The sizes of
/// the groups add up to at most the number of pairs of a project and a
/// label with a canonical version, and to exactly that number when no such
/// pair repeats a key and a version that another pair has.
pub fn build_matrix(projects: &Vec<(ProjectKey, &Project)>) -> (out: Vec<VersionGroup>)
    ensures
        is_grouping(out@, observations(projects@)),
        largest_first(out@),
        exists|from: Seq<int>|
            is_ranking(group_values(out@), grouping_of(observations(projects@)), from),
        total_members(out@) <= observations(projects@).len(),
        observations(projects@).no_duplicates() ==> total_members(out@) == observations(
            projects@,
        ).len(),
{
    let obs = observe(projects);
    let groups = group(&obs);
    let out = rank(&groups);
    proof {
        let from = choose|from: Seq<int>|
            is_ranking(group_values(out@), group_values(groups@), from);
        lemma_ranked_grouping(out@, groups@, from, obs@);
        assert(group_values(groups@) =~= grouping_of(obs@));
    }
    out
}

/// Whether no two labels of `labels` have the same canonical version.
pub open spec fn labels_distinct(labels: Seq<String>) -> bool {
    forall|i: int, j: int|
        0 <= i < j < labels.len() && parse_spec((#[trigger] labels[i])@) is Ok ==> parse_spec(
            labels[i]@,
        ) != parse_spec((#[trigger] labels[j])@)
}

/// Whether no key stands twice in `projects`, and no project has two labels
/// with the same canonical version.
pub open spec fn projects_distinct(projects: Seq<(ProjectKey, &Project)>) -> bool {
    &&& forall|i: int, j: int|
        0 <= i < j < projects.len() ==> (#[trigger] projects[i]).0 != (#[trigger] projects[j]).0
    &&& forall|i: int|
        0 <= i < projects.len() ==> labels_distinct((#[trigger] projects[i]).1.game_versions@)
}

/// Every observation of a project carries the project's key and the
/// canonical version of one of its labels.
proof fn lemma_label_observations_origin(key: ProjectKey, labels: Seq<String>, x: int)
    requires
        0 <= x < label_observations(key, labels).len(),
    ensures
        label_observations(key, labels)[x].0 == key,
        exists|j: int|
            0 <= j < labels.len() && parse_spec((#[trigger] labels[j])@) == Ok::<
                SemanticVersion,
                ParseError,
            >(label_observations(key, labels)[x].1),
    decreases labels.len(),
{
    let before = label_observations(key, labels.drop_last());
    if x < before.len() {
        lemma_label_observations_origin(key, labels.drop_last(), x);
        let j = choose|j: int|
            0 <= j < labels.drop_last().len() && parse_spec((#[trigger] labels.drop_last()[j])@)
                == Ok::<SemanticVersion, ParseError>(before[x].1);
        assert(labels[j] == labels.drop_last()[j]);
    } else {
        assert(labels[labels.len() - 1] == labels.last());
    }
}

/// Labels with distinct canonical versions give distinct observations.
proof fn lemma_label_observations_distinct(key: ProjectKey, labels: Seq<String>)
    requires
        labels_distinct(labels),
    ensures
        label_observations(key, labels).no_duplicates(),
    decreases labels.len(),
{
    if labels.len() > 0 {
        let shorter = labels.drop_last();
        let before = label_observations(key, shorter);
        assert(labels_distinct(shorter)) by {
            assert forall|i: int, j: int|
                0 <= i < j < shorter.len() && parse_spec(
                    (#[trigger] shorter[i])@,
                ) is Ok implies parse_spec(shorter[i]@) != parse_spec((#[trigger] shorter[j])@) by {
                assert(shorter[i] == labels[i] && shorter[j] == labels[j]);
            }
        }
        lemma_label_observations_distinct(key, shorter);
        let all = label_observations(key, labels);
        if all.len() > before.len() {
            assert forall|i: int, j: int| 0 <= i < all.len() && 0 <= j < all.len() && i
                != j implies all[i] != all[j] by {
                let low = if i < j {
                    i
                } else {
                    j
                };
                let high = if i < j {
                    j
                } else {
                    i
                };
                if high == before.len() {
                    lemma_label_observations_origin(key, shorter, low);
                    let k = choose|k: int|
                        0 <= k < shorter.len() && parse_spec((#[trigger] shorter[k])@) == Ok::<
                            SemanticVersion,
                            ParseError,
                        >(before[low].1);
                    assert(shorter[k] == labels[k]);
                    assert(labels[labels.len() - 1] == labels.last());
                } else {
                    assert(before[low] != before[high]);
                }
            }
        }
    }
}

/// Every observation carries the key of one of the projects.
proof fn lemma_observations_origin(projects: Seq<(ProjectKey, &Project)>, x: int)
    requires
        0 <= x < observations(projects).len(),
    ensures
        exists|i: int| 0 <= i < projects.len() && (#[trigger] projects[i]).0 == observations(
            projects,
        )[x].0,
    decreases projects.len(),
{
    let before = observations(projects.drop_last());
    if x < before.len() {
        lemma_observations_origin(projects.drop_last(), x);
        let i = choose|i: int|
            0 <= i < projects.drop_last().len() && (#[trigger] projects.drop_last()[i]).0
                == before[x].0;
        assert(projects[i] == projects.drop_last()[i]);
    } else {
        lemma_label_observations_origin(
            projects.last().0,
            projects.last().1.game_versions@,
            x - before.len(),
        );
        assert(projects[projects.len() - 1] == projects.last());
    }
}

/// Where no key stands twice and no project has two labels with the same
/// canonical version, no observation occurs twice: the sizes of the groups
/// of the matrix then add up to exactly the number of pairs of a project
/// and a label with a canonical version.
pub proof fn lemma_distinct_projects_observed_once(projects: Seq<(ProjectKey, &Project)>)
    requires
        projects_distinct(projects),
    ensures
        observations(projects).no_duplicates(),
    decreases projects.len(),
{
    if projects.len() > 0 {
        let shorter = projects.drop_last();
        assert(projects_distinct(shorter)) by {
            assert forall|i: int, j: int| 0 <= i < j < shorter.len() implies (
            #[trigger] shorter[i]).0 != (#[trigger] shorter[j]).0 by {
                assert(shorter[i] == projects[i] && shorter[j] == projects[j]);
            }
            assert forall|i: int| 0 <= i < shorter.len() implies labels_distinct(
                (#[trigger] shorter[i]).1.game_versions@,
            ) by {
                assert(shorter[i] == projects[i]);
            }
        }
        lemma_distinct_projects_observed_once(shorter);
        let before = observations(shorter);
        let own = label_observations(projects.last().0, projects.last().1.game_versions@);
        assert(projects[projects.len() - 1] == projects.last());
        lemma_label_observations_distinct(projects.last().0, projects.last().1.game_versions@);
        assert forall|i: int, j: int| 0 <= i < before.len() && 0 <= j < own.len() implies before[i]
            != own[j] by {
            lemma_observations_origin(shorter, i);
            let k = choose|k: int|
                0 <= k < shorter.len() && (#[trigger] shorter[k]).0 == before[i].0;
            assert(shorter[k] == projects[k]);
            lemma_label_observations_origin(
                projects.last().0,
                projects.last().1.game_versions@,
                j,
            );
        }
        vstd::seq_lib::lemma_no_dup_in_concat(before, own);
    }
}

} // verus!
