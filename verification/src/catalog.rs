//! Project records and the append-only index that hands out stable keys.

use vstd::prelude::*;

verus! {

/// The catalog's identifier of a project.
#[derive(Debug, Clone)]
pub struct ProjectID(pub String);

impl AsRef<str> for ProjectID {
    /// The identifier as text.
    fn as_ref(&self) -> (r: &str)
        ensures
            r@ == self.0@,
    {
        self.0.as_str()
    }
}

/// The catalog's identifier of a user.
#[derive(Debug, Clone)]
pub struct UserID(pub String);

/// A handle to a project inside a [`CatalogIndex`]: the position at which
/// the project was appended.
#[derive(Debug, Clone, Copy, PartialEq, Eq, Hash, Structural)]
pub struct ProjectKey(pub usize);

/// A named list of projects, each already held by the index.
#[derive(Debug, Clone)]
pub struct Collection {
    pub id: String,
    pub user: UserID,
    pub name: String,
    pub description: String,
    pub projects: Vec<ProjectKey>,
}

/// What the catalog says of one project.
#[derive(Debug, Clone)]
pub struct Project {
    pub id: String,
    pub slug: String,
    pub title: String,
    /// The version labels that the project declares, as the catalog spells
    /// them.
    pub game_versions: Vec<String>,
}

/// The texts of a list of strings.
pub open spec fn texts(v: Seq<String>) -> Seq<Seq<char>> {
    Seq::new(v.len(), |i: int| v[i]@)
}

impl Project {
    /// A second record with the same contents.
    pub fn duplicate(&self) -> (r: Project)
        ensures
            r.id@ == self.id@,
            r.slug@ == self.slug@,
            r.title@ == self.title@,
            texts(r.game_versions@) == texts(self.game_versions@),
    {
        let mut labels: Vec<String> = Vec::with_capacity(self.game_versions.len());
        let mut i: usize = 0;
        while i < self.game_versions.len()
            invariant
                i <= self.game_versions@.len(),
                labels@.len() == i,
                forall|k: int| 0 <= k < i ==> (#[trigger] labels@[k])@ == self.game_versions@[k]@,
            decreases self.game_versions@.len() - i,
        {
            labels.push(self.game_versions[i].clone());
            i = i + 1;
        }
        assert(texts(labels@) =~= texts(self.game_versions@));
        Project {
            id: self.id.clone(),
            slug: self.slug.clone(),
            title: self.title.clone(),
            game_versions: labels,
        }
    }
}

/// An append-only store of project records. A key is the position of a
/// record; records are never moved, replaced or removed.
pub struct CatalogIndex {
    projects: Vec<Project>,
}

impl View for CatalogIndex {
    type V = Seq<Project>;

    closed spec fn view(&self) -> Seq<Project> {
        self.projects@
    }
}

impl CatalogIndex {
    /// Whether `key` was handed out by this index.
    pub open spec fn holds(&self, key: ProjectKey) -> bool {
        key.0 < self@.len()
    }

    /// An index without records.
    pub fn new() -> (r: CatalogIndex)
        ensures
            r@ == Seq::<Project>::empty(),
    {
        CatalogIndex { projects: Vec::new() }
    }

    /// The number of records.
    pub fn len(&self) -> (n: usize)
        ensures
            n == self@.len(),
    {
        self.projects.len()
    }

    /// Whether `key` was handed out by this index.
    pub fn contains_key(&self, key: ProjectKey) -> (r: bool)
        ensures
            r == self.holds(key),
    {
        key.0 < self.projects.len()
    }

    /// Appends a record and returns its key. Every earlier key keeps its
    /// record, and the new key is larger than all of them.
    pub fn insert(&mut self, project: Project) -> (key: ProjectKey)
        ensures
            final(self)@ == old(self)@.push(project),
            key.0 == old(self)@.len(),
    {
        self.projects.push(project);
        ProjectKey(self.projects.len() - 1)
    }

    /// Whether `at` is the first record with the id `id`.
    pub open spec fn is_first_with(&self, at: int, id: Seq<char>) -> bool {
        &&& 0 <= at < self@.len()
        &&& self@[at].id@ == id
        &&& forall|k: int| 0 <= k < at ==> (#[trigger] self@[k]).id@ != id
    }

    /// The key of the first record with this id, so that a project that
    /// the index holds already need not be fetched again. `None` exactly
    /// when no record has the id.
    pub fn find(&self, id: &String) -> (r: Option<ProjectKey>)
        ensures
            r is None ==> forall|k: int| 0 <= k < self@.len() ==> (#[trigger] self@[k]).id@ != id@,
            r matches Some(key) ==> self.is_first_with(key.0 as int, id@),
    {
        let mut i: usize = 0;
        while i < self.projects.len()
            invariant
                i <= self.projects@.len(),
                forall|k: int| 0 <= k < i ==> (#[trigger] self.projects@[k]).id@ != id@,
            decreases self.projects@.len() - i,
        {
            if self.projects[i].id == *id {
                return Some(ProjectKey(i));
            }
            i = i + 1;
        }
        None
    }

    /// The record of `key`.
    pub fn get(&self, key: ProjectKey) -> (r: &Project)
        requires
            self.holds(key),
        ensures
            *r == self@[key.0 as int],
    {
        &self.projects[key.0]
    }

    /// The records of `keys`, each beside its key, in the order of `keys`.
    pub fn get_projects<'a>(&'a self, keys: &Vec<ProjectKey>) -> (r: Vec<(ProjectKey, &'a Project)>)
        requires
            forall|i: int| 0 <= i < keys@.len() ==> self.holds(#[trigger] keys@[i]),
        ensures
            r@.len() == keys@.len(),
            forall|i: int|
                0 <= i < keys@.len() ==> (#[trigger] r@[i]).0 == keys@[i] && *r@[i].1
                    == self@[keys@[i].0 as int],
    {
        let mut out: Vec<(ProjectKey, &'a Project)> = Vec::with_capacity(keys.len());
        let mut i: usize = 0;
        while i < keys.len()
            invariant
                i <= keys@.len(),
                out@.len() == i,
                forall|k: int| 0 <= k < keys@.len() ==> self.holds(#[trigger] keys@[k]),
                forall|k: int|
                    0 <= k < i ==> (#[trigger] out@[k]).0 == keys@[k] && *out@[k].1
                        == self@[keys@[k].0 as int],
            decreases keys@.len() - i,
        {
            let key = keys[i];
            out.push((key, self.get(key)));
            i = i + 1;
        }
        out
    }
}

} // verus!
