//! A registry whose index is a git repository that is fetched from afar.
//!
//! What is kept here is what was learned from the repository, as texts: the
//! commit at its head, the tree of that commit, and the version of the index,
//! which is the text of the head. The repository itself is in other hands.

use crate::package::SourceId;
use vstd::prelude::*;

verus! {

/// The settings that a remote registry goes by.
#[derive(Clone, Copy, Debug)]
pub struct RemoteConfig {
    /// Whether the network must not be used.
    pub offline: bool,
    /// Whether the index must not be updated.
    pub no_index_update: bool,
}

/// A registry whose index is a git repository.
pub struct RemoteRegistry {
    index_path: String,
    cache_path: String,
    source_id: SourceId,
    config: RemoteConfig,
    tree: Option<String>,
    head: Option<String>,
    current_sha: Option<String>,
}

/// The value of an optional text.
pub open spec fn kept_text(text: Option<String>) -> Option<Seq<char>> {
    match text {
        Some(t) => Some(t@),
        None => None,
    }
}

/// The work that getting at the repository is made of, in this order.
#[derive(Debug, PartialEq, Eq, Structural, Clone, Copy)]
pub enum RepoStage {
    /// Open the repository. This is the fast path.
    Open,
    /// Open it once more: whoever was making it may have finished by now.
    OpenAgain,
    /// Clear the directory and make a new repository, which is not bare.
    Create,
}

/// How getting at the repository goes on.
#[derive(Debug)]
pub enum RepoStep<R, E> {
    /// This work comes next.
    Do(RepoStage),
    /// This is the repository, which is to be kept.
    Done(R),
    /// There is no repository, and nothing to be kept.
    Failed(E),
}

/// How getting at the repository begins, given the one that is kept.
pub open spec fn repo_begun<R, E>(kept: Option<R>) -> RepoStep<R, E> {
    match kept {
        Some(repo) => RepoStep::Done(repo),
        None => RepoStep::Do(RepoStage::Open),
    }
}

/// How getting at the repository goes on, given what became of a piece of work.
pub open spec fn repo_continued<R, E>(stage: RepoStage, result: Result<R, E>) -> RepoStep<R, E> {
    match result {
        Ok(repo) => RepoStep::Done(repo),
        Err(e) => match stage {
            RepoStage::Open => RepoStep::Do(RepoStage::OpenAgain),
            RepoStage::OpenAgain => RepoStep::Do(RepoStage::Create),
            RepoStage::Create => RepoStep::Failed(e),
        },
    }
}

/// Where getting at the repository has come to, after work with these results.
pub open spec fn repo_run<R, E>(kept: Option<R>, results: Seq<Result<R, E>>) -> RepoStep<R, E>
    decreases results.len(),
{
    if results.len() == 0 {
        repo_begun(kept)
    } else {
        match repo_run(kept, results.drop_last()) {
            RepoStep::Do(stage) => repo_continued(stage, results.last()),
            over => over,
        }
    }
}

/// Begins to get at the repository. One that is kept is used as it is, without
/// any work.
pub fn repo<R, E>(kept: Option<R>) -> (r: RepoStep<R, E>)
    ensures
        r == repo_begun::<R, E>(kept),
{
    match kept {
        Some(repo) => RepoStep::Done(repo),
        None => RepoStep::Do(RepoStage::Open),
    }
}

/// Goes on to get at the repository, given what became of the last piece of
/// work. It is made anew only if it could not be opened.
pub fn repo_step<R, E>(stage: RepoStage, result: Result<R, E>) -> (r: RepoStep<R, E>)
    ensures
        r == repo_continued(stage, result),
{
    match result {
        Ok(repo) => RepoStep::Done(repo),
        Err(e) => match stage {
            RepoStage::Open => RepoStep::Do(RepoStage::OpenAgain),
            RepoStage::OpenAgain => RepoStep::Do(RepoStage::Create),
            RepoStage::Create => RepoStep::Failed(e),
        },
    }
}

/// A repository that is kept is the one that is used, and no work is done.
pub proof fn law_kept_repository_is_used<R, E>(repo: R, results: Seq<Result<R, E>>)
    ensures
        repo_run(Some(repo), results) == RepoStep::<R, E>::Done(repo),
    decreases results.len(),
{
    if results.len() > 0 {
        law_kept_repository_is_used(repo, results.drop_last());
    }
}

/// The directory is cleared and a repository made only when it could be opened
/// neither at first nor once more.
pub proof fn law_repository_is_made_last<R, E>(results: Seq<Result<R, E>>)
    ensures
        repo_run(None::<R>, results) == RepoStep::<R, E>::Do(RepoStage::Create) <==> {
            &&& results.len() == 2
            &&& results[0] is Err
            &&& results[1] is Err
        },
{
    lemma_repo_run(results);
}

/// The first piece of work that succeeds gives the repository, and no work is
/// done after it.
pub proof fn law_first_repository_is_used<R, E>(results: Seq<Result<R, E>>, n: int)
    requires
        0 <= n < results.len(),
        n <= 2,
        results[n] is Ok,
        forall|i: int| 0 <= i < n ==> results[i] is Err,
    ensures
        repo_run(None::<R>, results) == RepoStep::<R, E>::Done(results[n]->Ok_0),
{
    lemma_repo_run(results);
}

/// There is no repository exactly if it could not be opened, nor opened once
/// more, nor made; the last error tells why.
pub proof fn law_repository_fails_last<R, E>(results: Seq<Result<R, E>>, e: E)
    ensures
        repo_run(None::<R>, results) == RepoStep::<R, E>::Failed(e) <==> {
            &&& results.len() >= 3
            &&& results[0] is Err
            &&& results[1] is Err
            &&& results[2] == Err::<R, E>(e)
        },
{
    lemma_repo_run(results);
}

/// Where getting at the repository has come to, case by case.
proof fn lemma_repo_run<R, E>(results: Seq<Result<R, E>>)
    ensures
        repo_run(None::<R>, results) == if results.len() == 0 {
            RepoStep::<R, E>::Do(RepoStage::Open)
        } else if results[0] is Ok {
            RepoStep::Done(results[0]->Ok_0)
        } else if results.len() == 1 {
            RepoStep::Do(RepoStage::OpenAgain)
        } else if results[1] is Ok {
            RepoStep::Done(results[1]->Ok_0)
        } else if results.len() == 2 {
            RepoStep::Do(RepoStage::Create)
        } else {
            match results[2] {
                Ok(repo) => RepoStep::Done(repo),
                Err(e) => RepoStep::Failed(e),
            }
        },
    decreases results.len(),
{
    if results.len() > 0 {
        lemma_repo_run(results.drop_last());
    }
}

/// Why a file of the index is not there.
#[derive(Debug)]
pub enum LoadError<E> {
    /// The repository could not be read.
    Repository(E),
    /// There is something at the path, but no file.
    NotABlob,
}

/// The work that an update of the index is made of, in this order.
#[derive(Debug, PartialEq, Eq, Structural, Clone, Copy)]
pub enum UpdateStage {
    /// Make sure that an HTTP handle can be had later on, so that a problem
    /// with it shows before the index is touched.
    CheckHttp,
    /// Create the directories and the repository.
    Prepare,
    /// Tell the user.
    Announce,
    /// Fetch the latest state into the repository.
    Fetch,
    /// Leave a file that records the time.
    Record,
}

/// How an update of the index goes on.
#[derive(Debug)]
pub enum UpdateStep<E> {
    /// This work comes next.
    Do(UpdateStage),
    /// The index is updated.
    Done,
    /// The update failed.
    Failed(E),
}

impl RemoteRegistry {
    /// The commit at the head, if it is known.
    pub closed spec fn kept_head(&self) -> Option<Seq<char>> {
        kept_text(self.head)
    }

    /// The tree of the head, if it is known.
    pub closed spec fn kept_tree(&self) -> Option<Seq<char>> {
        kept_text(self.tree)
    }

    /// The version of the index, if it was asked for.
    pub closed spec fn kept_version(&self) -> Option<Seq<char>> {
        kept_text(self.current_sha)
    }

    /// Where the index is kept.
    pub closed spec fn index_location(&self) -> Seq<char> {
        self.index_path@
    }

    /// Where packages are kept.
    pub closed spec fn cache_location(&self) -> Seq<char> {
        self.cache_path@
    }

    /// Where the packages come from.
    pub closed spec fn source(&self) -> SourceId {
        self.source_id
    }

    /// The settings.
    pub closed spec fn settings(&self) -> RemoteConfig {
        self.config
    }

    /// What holds of every remote registry: the version of the index is the
    /// text of the head, and a tree is known only with the head that it is of.
    pub open spec fn wf(&self) -> bool {
        &&& self.kept_version() is Some ==> self.kept_version() == self.kept_head()
        &&& self.kept_tree() is Some ==> self.kept_head() is Some
    }

    /// Whether another registry is the same one under the same settings.
    pub open spec fn is_like(&self, other: &RemoteRegistry) -> bool {
        &&& self.index_location() == other.index_location()
        &&& self.cache_location() == other.cache_location()
        &&& self.source() == other.source()
        &&& self.settings() == other.settings()
    }

    /// Whether the index has to be fetched: it may be, and it was not yet in
    /// this session.
    pub open spec fn needs_update(&self, updated_sources: Seq<u64>) -> bool {
        &&& !self.settings().offline
        &&& !self.settings().no_index_update
        &&& !updated_sources.contains(self.source().id)
    }

    /// A registry of which nothing is known yet.
    pub fn new(
        source_id: SourceId,
        config: RemoteConfig,
        index_path: &str,
        cache_path: &str,
    ) -> (r: RemoteRegistry)
        ensures
            r.wf(),
            r.source() == source_id,
            r.settings() == config,
            r.index_location() == index_path@,
            r.cache_location() == cache_path@,
            r.kept_head() is None,
            r.kept_tree() is None,
            r.kept_version() is None,
    {
        RemoteRegistry {
            index_path: index_path.to_owned(),
            cache_path: cache_path.to_owned(),
            source_id,
            config,
            tree: None,
            head: None,
            current_sha: None,
        }
    }

    /// Where the index is kept.
    pub fn index_path(&self) -> (r: &str)
        ensures
            r@ == self.index_location(),
    {
        &self.index_path
    }

    /// Where packages are kept.
    pub fn cache_path(&self) -> (r: &str)
        ensures
            r@ == self.cache_location(),
    {
        &self.cache_path
    }

    /// Where the packages come from.
    pub fn source_id(&self) -> (r: &SourceId)
        ensures
            *r == self.source(),
    {
        &self.source_id
    }

    /// The commit at the head, which is resolved once.
    pub fn head<E, R: Fn() -> Result<String, E>>(&mut self, resolve: &R) -> (r: Result<String, E>)
        requires
            old(self).wf(),
            old(self).kept_head() is None ==> call_requires(*resolve, ()),
        ensures
            final(self).wf(),
            final(self).is_like(old(self)),
            final(self).kept_tree() == old(self).kept_tree(),
            final(self).kept_version() == old(self).kept_version(),
            match old(self).kept_head() {
                Some(head) => {
                    &&& r matches Ok(h) && h@ == head
                    &&& final(self).kept_head() == old(self).kept_head()
                },
                None => {
                    &&& call_ensures(*resolve, (), r)
                    &&& match r {
                        Ok(h) => final(self).kept_head() == Some(h@),
                        Err(_) => final(self).kept_head() is None,
                    }
                },
            },
    {
        if let Some(head) = &self.head {
            return Ok(head.clone());
        }
        match resolve() {
            Ok(head) => {
                self.head = Some(head.clone());
                Ok(head)
            },
            Err(e) => Err(e),
        }
    }

    /// The tree of the head, which is looked up once.
    pub fn tree<E, R, T>(&mut self, resolve: &R, find_tree: &T) -> (r: Result<String, E>) where
        R: Fn() -> Result<String, E>,
        T: Fn(&str) -> Result<String, E>,

        requires
            old(self).wf(),
            old(self).kept_head() is None ==> call_requires(*resolve, ()),
            old(self).kept_tree() is None ==> forall|head: &str|
                call_requires(*find_tree, (head,)),
        ensures
            final(self).wf(),
            final(self).is_like(old(self)),
            final(self).kept_version() == old(self).kept_version(),
            old(self).kept_head() is None ==> (final(self).kept_head() matches Some(head)
                ==> is_head(*resolve, head)),
            match old(self).kept_tree() {
                Some(tree) => {
                    &&& r matches Ok(t) && t@ == tree
                    &&& final(self).kept_tree() == old(self).kept_tree()
                    &&& final(self).kept_head() == old(self).kept_head()
                },
                None => {
                    &&& old(self).kept_head() is Some ==> final(self).kept_head() == old(
                        self,
                    ).kept_head()
                    &&& match r {
                        Ok(t) => {
                            &&& final(self).kept_tree() == Some(t@)
                            &&& final(self).kept_head() is Some
                            &&& is_tree_of(*find_tree, final(self).kept_head()->0, r)
                        },
                        Err(e) => {
                            &&& final(self).kept_tree() is None
                            &&& match final(self).kept_head() {
                                None => call_ensures(*resolve, (), r),
                                Some(head) => is_tree_of(*find_tree, head, r),
                            }
                        },
                    }
                },
            },
    {
        if let Some(tree) = &self.tree {
            return Ok(tree.clone());
        }
        let head = match self.head(resolve) {
            Ok(head) => head,
            Err(e) => {
                return Err(e);
            },
        };
        match find_tree(head.as_str()) {
            Ok(tree) => {
                self.tree = Some(tree.clone());
                Ok(tree)
            },
            Err(e) => Err(e),
        }
    }

    /// The version of the index, which is the head as a text. There is none if
    /// the head cannot be resolved.
    pub fn current_version<E, R: Fn() -> Result<String, E>>(&mut self, resolve: &R) -> (r: Option<
        String,
    >)
        requires
            old(self).wf(),
            old(self).kept_head() is None ==> call_requires(*resolve, ()),
        ensures
            final(self).wf(),
            final(self).is_like(old(self)),
            final(self).kept_tree() == old(self).kept_tree(),
            old(self).kept_head() is Some ==> kept_text(r) == old(self).kept_head(),
            match r {
                Some(v) => {
                    &&& final(self).kept_version() == Some(v@)
                    &&& final(self).kept_head() == Some(v@)
                    &&& old(self).kept_head() is None ==> call_ensures(
                        *resolve,
                        (),
                        Ok::<String, E>(v),
                    )
                },
                None => {
                    &&& final(self).kept_version() is None
                    &&& final(self).kept_head() is None
                    &&& exists|e: E| call_ensures(*resolve, (), Err::<String, E>(e))
                },
            },
    {
        if let Some(sha) = &self.current_sha {
            return Some(sha.clone());
        }
        match self.head(resolve) {
            Ok(head) => {
                self.current_sha = Some(head.clone());
                Some(head)
            },
            Err(_) => None,
        }
    }

    /// The contents of a file of the index.
    ///
    /// `read` is given the tree and the path. It hands out the contents of a
    /// file, and nothing where there is something else at the path.
    pub fn load<E, R, T, B>(
        &mut self,
        path: &str,
        resolve: &R,
        find_tree: &T,
        read: &B,
    ) -> (r: Result<Vec<u8>, LoadError<E>>) where
        R: Fn() -> Result<String, E>,
        T: Fn(&str) -> Result<String, E>,
        B: Fn(&str, &str) -> Result<Option<Vec<u8>>, E>,

        requires
            old(self).wf(),
            old(self).kept_head() is None ==> call_requires(*resolve, ()),
            old(self).kept_tree() is None ==> forall|head: &str|
                call_requires(*find_tree, (head,)),
            forall|tree: &str| call_requires(*read, (tree, path)),
        ensures
            final(self).wf(),
            final(self).is_like(old(self)),
            final(self).kept_version() == old(self).kept_version(),
            old(self).kept_tree() is Some ==> final(self).kept_tree() == old(self).kept_tree(),
            old(self).kept_head() is Some ==> final(self).kept_head() == old(self).kept_head(),
            old(self).kept_head() is None ==> (final(self).kept_head() matches Some(head)
                ==> is_head(*resolve, head)),
            old(self).kept_tree() is None ==> (final(self).kept_tree() matches Some(tree)
                ==> final(self).kept_head() matches Some(head) && found_tree(
                *find_tree,
                head,
                tree,
            )),
            match r {
                Ok(contents) => final(self).kept_tree() is Some && is_read(
                    *read,
                    final(self).kept_tree()->0,
                    path,
                    Ok::<Option<Vec<u8>>, E>(Some(contents)),
                ),
                Err(LoadError::NotABlob) => final(self).kept_tree() is Some && is_read(
                    *read,
                    final(self).kept_tree()->0,
                    path,
                    Ok::<Option<Vec<u8>>, E>(None),
                ),
                Err(LoadError::Repository(e)) => match final(self).kept_tree() {
                    Some(tree) => is_read(*read, tree, path, Err::<Option<Vec<u8>>, E>(e)),
                    None => match final(self).kept_head() {
                        Some(head) => is_tree_of(*find_tree, head, Err::<String, E>(e)),
                        None => call_ensures(*resolve, (), Err::<String, E>(e)),
                    },
                },
            },
    {
        let tree = match self.tree(resolve, find_tree) {
            Ok(tree) => tree,
            Err(e) => {
                return Err(LoadError::Repository(e));
            },
        };
        match read(tree.as_str(), path) {
            Ok(Some(contents)) => Ok(contents),
            Ok(None) => Err(LoadError::NotABlob),
            Err(e) => Err(LoadError::Repository(e)),
        }
    }

    /// Starts an update of the index, if there is to be one.
    ///
    /// The index is only updated once per session since it is an expensive
    /// operation. `updated_sources` are the sources that were updated in this
    /// session.
    pub fn update_index(&self, updated_sources: &Vec<u64>) -> (r: Option<UpdateStage>)
        ensures
            r == if self.needs_update(updated_sources@) {
                Some(UpdateStage::CheckHttp)
            } else {
                None
            },
    {
        if self.config.offline || self.config.no_index_update {
            return None;
        }
        let id: u64 = self.source_id.id;
        let mut i: usize = 0;
        while i < updated_sources.len()
            invariant
                i <= updated_sources@.len(),
                id == self.source().id,
                forall|j: int| 0 <= j < i ==> updated_sources@[j] != id,
            decreases updated_sources@.len() - i,
        {
            if updated_sources[i] == id {
                return None;
            }
            i += 1;
        }
        Some(UpdateStage::CheckHttp)
    }

    /// Goes on with an update of the index, given what became of the last piece
    /// of work.
    ///
    /// Once the repository is there, everything that was learned from it is
    /// forgotten. Once the latest state is fetched, the source counts as
    /// updated.
    pub fn update_step<E>(
        &mut self,
        stage: UpdateStage,
        result: Result<(), E>,
        updated_sources: &mut Vec<u64>,
    ) -> (r: UpdateStep<E>)
        requires
            old(self).wf(),
        ensures
            final(self).wf(),
            final(self).is_like(old(self)),
            match result {
                Err(e) => r == UpdateStep::Failed(e),
                Ok(_) => r == match next_stage(stage) {
                    Some(next) => UpdateStep::<E>::Do(next),
                    None => UpdateStep::<E>::Done,
                },
            },
            if result is Ok && stage == UpdateStage::Prepare {
                &&& final(self).kept_head() is None
                &&& final(self).kept_tree() is None
                &&& final(self).kept_version() is None
            } else {
                *final(self) == *old(self)
            },
            final(updated_sources)@ == if result is Ok && stage == UpdateStage::Fetch {
                old(updated_sources)@.push(old(self).source().id)
            } else {
                old(updated_sources)@
            },
    {
        if let Err(e) = result {
            return UpdateStep::Failed(e);
        }
        match stage {
            UpdateStage::CheckHttp => UpdateStep::Do(UpdateStage::Prepare),
            UpdateStage::Prepare => {
                self.current_sha = None;
                self.head = None;
                self.tree = None;
                UpdateStep::Do(UpdateStage::Announce)
            },
            UpdateStage::Announce => UpdateStep::Do(UpdateStage::Fetch),
            UpdateStage::Fetch => {
                updated_sources.push(self.source_id.id);
                UpdateStep::Do(UpdateStage::Record)
            },
            UpdateStage::Record => UpdateStep::Done,
        }
    }
}

/// The work that follows on a piece of work.
pub open spec fn next_stage(stage: UpdateStage) -> Option<UpdateStage> {
    match stage {
        UpdateStage::CheckHttp => Some(UpdateStage::Prepare),
        UpdateStage::Prepare => Some(UpdateStage::Announce),
        UpdateStage::Announce => Some(UpdateStage::Fetch),
        UpdateStage::Fetch => Some(UpdateStage::Record),
        UpdateStage::Record => None,
    }
}

/// Whether `resolve` may have said that this is the head.
pub open spec fn is_head<E, R: Fn() -> Result<String, E>>(resolve: R, head: Seq<char>) -> bool {
    exists|h: String| h@ == head && #[trigger] call_ensures(resolve, (), Ok::<String, E>(h))
}

/// Whether `find_tree` may have said that this is the tree of a head.
pub open spec fn found_tree<E, T: Fn(&str) -> Result<String, E>>(
    find_tree: T,
    head: Seq<char>,
    tree: Seq<char>,
) -> bool {
    exists|t: String| t@ == tree && #[trigger] is_tree_of(find_tree, head, Ok::<String, E>(t))
}

/// Whether `find_tree` may have said `r` of a head.
pub open spec fn is_tree_of<E, T: Fn(&str) -> Result<String, E>>(
    find_tree: T,
    head: Seq<char>,
    r: Result<String, E>,
) -> bool {
    exists|h: &str| h@ == head && #[trigger] call_ensures(find_tree, (h,), r)
}

/// Whether `read` may have said `r` of a path in a tree.
pub open spec fn is_read<E, B: Fn(&str, &str) -> Result<Option<Vec<u8>>, E>>(
    read: B,
    tree: Seq<char>,
    path: &str,
    r: Result<Option<Vec<u8>>, E>,
) -> bool {
    exists|t: &str| t@ == tree && #[trigger] call_ensures(read, (t, path), r)
}

/// A source is updated once per session: when its index was fetched, it is not
/// fetched again.
pub proof fn law_updated_once(registry: &RemoteRegistry, updated_sources: Seq<u64>)
    ensures
        !registry.needs_update(updated_sources.push(registry.source().id)),
{
    let after = updated_sources.push(registry.source().id);
    assert(after[updated_sources.len() as int] == registry.source().id);
}

/// Updating one source leaves the others to be updated.
pub proof fn law_updates_are_separate(
    registry: &RemoteRegistry,
    updated_sources: Seq<u64>,
    other: u64,
)
    requires
        other != registry.source().id,
    ensures
        registry.needs_update(updated_sources.push(other)) == registry.needs_update(
            updated_sources,
        ),
{
    let id = registry.source().id;
    let after = updated_sources.push(other);
    if updated_sources.contains(id) {
        let i = choose|i: int| 0 <= i < updated_sources.len() && updated_sources[i] == id;
        assert(after[i] == id);
    }
}

/// The index is fetched exactly if the network may be used, the index may be
/// updated, and no place of the list of updated sources holds this source.
pub proof fn law_needs_update(registry: &RemoteRegistry, updated_sources: Seq<u64>)
    ensures
        registry.needs_update(updated_sources) <==> {
            &&& !registry.settings().offline
            &&& !registry.settings().no_index_update
            &&& forall|i: int|
                0 <= i < updated_sources.len() ==> #[trigger] updated_sources[i]
                    != registry.source().id
        },
{
    let id = registry.source().id;
    if updated_sources.contains(id) {
        let i = choose|i: int| 0 <= i < updated_sources.len() && updated_sources[i] == id;
        assert(updated_sources[i] == id);
    }
    if exists|i: int| 0 <= i < updated_sources.len() && updated_sources[i] == id {
        assert(updated_sources.contains(id));
    }
}

/// The work of an update: the protocol is checked first, then the repository is
/// prepared, the update announced and the latest state fetched, and last the
/// update is put on record. No piece of work comes twice.
pub proof fn law_update_order(a: UpdateStage, b: UpdateStage)
    ensures
        next_stage(a) is None <==> a == UpdateStage::Record,
        next_stage(a) is Some && next_stage(a) == next_stage(b) ==> a == b,
        next_stage(a) != Some(UpdateStage::CheckHttp),
        next_stage(a) == Some(UpdateStage::Prepare) <==> a == UpdateStage::CheckHttp,
        next_stage(a) == Some(UpdateStage::Announce) <==> a == UpdateStage::Prepare,
        next_stage(a) == Some(UpdateStage::Fetch) <==> a == UpdateStage::Announce,
        next_stage(a) == Some(UpdateStage::Record) <==> a == UpdateStage::Fetch,
{
}

/// A registry that is like another has its places, its source and its settings.
pub proof fn law_same_registry(a: &RemoteRegistry, b: &RemoteRegistry)
    ensures
        a.is_like(b) <==> {
            &&& a.index_location() == b.index_location()
            &&& a.cache_location() == b.cache_location()
            &&& a.source() == b.source()
            &&& a.settings() == b.settings()
        },
{
}

/// What was learned from the repository is what the repository said: the head is
/// one that `resolve` gave, the tree one that `find_tree` gave of that head, and
/// the contents those that `read` gave of the path in that tree.
pub proof fn law_what_the_repository_said<E, R, T, B>(
    resolve: R,
    find_tree: T,
    read: B,
    head: Seq<char>,
    tree: Seq<char>,
    path: &str,
    r: Result<Option<Vec<u8>>, E>,
) where
    R: Fn() -> Result<String, E>,
    T: Fn(&str) -> Result<String, E>,
    B: Fn(&str, &str) -> Result<Option<Vec<u8>>, E>,

    requires
        is_head(resolve, head),
        found_tree(find_tree, head, tree),
        is_read(read, tree, path, r),
    ensures
        exists|h: String| h@ == head && #[trigger] call_ensures(resolve, (), Ok::<String, E>(h)),
        exists|h: &str, t: String|
            h@ == head && t@ == tree && #[trigger] call_ensures(
                find_tree,
                (h,),
                Ok::<String, E>(t),
            ),
        exists|t: &str| t@ == tree && #[trigger] call_ensures(read, (t, path), r),
{
    let t = choose|t: String|
        t@ == tree && #[trigger] is_tree_of(find_tree, head, Ok::<String, E>(t));
    let h = choose|h: &str|
        h@ == head && #[trigger] call_ensures(find_tree, (h,), Ok::<String, E>(t));
    assert(call_ensures(find_tree, (h,), Ok::<String, E>(t)));
}

} // verus!
