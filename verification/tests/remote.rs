//! Remote registries.

use registry_index::package::SourceId;
use registry_index::remote::{
    repo, repo_step, LoadError, RemoteConfig, RemoteRegistry, RepoStage, RepoStep, UpdateStage,
    UpdateStep,
};

fn registry(offline: bool, no_index_update: bool) -> RemoteRegistry {
    RemoteRegistry::new(
        SourceId { id: 5, precise: None },
        RemoteConfig { offline, no_index_update },
        "/index/x",
        "/cache/x",
    )
}

fn resolved(head: &str) -> impl Fn() -> Result<String, u8> + '_ {
    move || Ok(head.to_string())
}

fn unresolved() -> Result<String, u8> {
    Err(1)
}

#[test]
fn a_new_registry_knows_where_it_is() {
    let r = registry(false, false);
    assert_eq!(r.index_path(), "/index/x");
    assert_eq!(r.cache_path(), "/cache/x");
    assert_eq!(r.source_id().id, 5);
}

#[test]
fn the_head_is_resolved_once() {
    let mut r = registry(false, false);
    assert_eq!(r.head(&unresolved), Err(1));
    assert_eq!(r.head(&resolved("aa")), Ok("aa".to_string()));
    assert_eq!(r.head(&resolved("bb")), Ok("aa".to_string()));
    assert_eq!(r.head(&unresolved), Ok("aa".to_string()));
}

#[test]
fn the_version_is_the_head() {
    let mut r = registry(false, false);
    assert_eq!(r.current_version(&unresolved), None);
    assert_eq!(r.current_version(&resolved("aa")), Some("aa".to_string()));
    assert_eq!(r.current_version(&unresolved), Some("aa".to_string()));
    assert_eq!(r.head(&unresolved), Ok("aa".to_string()));
}

#[test]
fn the_tree_is_that_of_the_head() {
    let mut r = registry(false, false);
    let find = |head: &str| -> Result<String, u8> { Ok(format!("tree of {}", head)) };
    let fail = |_: &str| -> Result<String, u8> { Err(2) };
    assert_eq!(r.tree(&unresolved, &find), Err(1));
    assert_eq!(r.tree(&resolved("aa"), &fail), Err(2));
    assert_eq!(r.tree(&resolved("bb"), &find), Ok("tree of aa".to_string()));
    assert_eq!(r.tree(&unresolved, &fail), Ok("tree of aa".to_string()));
}

#[test]
fn files_are_read_from_the_tree() {
    let find = |head: &str| -> Result<String, u8> { Ok(format!("tree of {}", head)) };
    let read = |tree: &str, path: &str| -> Result<Option<Vec<u8>>, u8> {
        match path {
            "a" => Ok(Some(tree.as_bytes().to_vec())),
            "dir" => Ok(None),
            _ => Err(3),
        }
    };
    let mut r = registry(false, false);
    assert!(matches!(
        r.load("a", &unresolved, &find, &read),
        Err(LoadError::Repository(1))
    ));
    assert_eq!(
        r.load("a", &resolved("aa"), &find, &read).unwrap(),
        b"tree of aa".to_vec()
    );
    assert!(matches!(r.load("dir", &unresolved, &find, &read), Err(LoadError::NotABlob)));
    assert!(matches!(r.load("b", &unresolved, &find, &read), Err(LoadError::Repository(3))));
}

/// Gets at a repository, given what comes of each stage, and tells which stages
/// there were.
fn get_repo(kept: Option<u8>, results: &[Result<u8, u8>]) -> (Vec<RepoStage>, Result<u8, u8>) {
    let mut done = Vec::new();
    let mut step = repo(kept);
    loop {
        match step {
            RepoStep::Do(stage) => {
                step = repo_step(stage, results[done.len()]);
                done.push(stage);
            }
            RepoStep::Done(repo) => return (done, Ok(repo)),
            RepoStep::Failed(e) => return (done, Err(e)),
        }
    }
}

#[test]
fn a_repository_is_made_only_if_it_cannot_be_opened() {
    let (open, again, create) = (RepoStage::Open, RepoStage::OpenAgain, RepoStage::Create);
    assert_eq!(get_repo(None, &[Ok(10)]), (vec![open], Ok(10)));
    assert_eq!(get_repo(None, &[Err(1), Ok(20)]), (vec![open, again], Ok(20)));
    assert_eq!(
        get_repo(None, &[Err(1), Err(2), Ok(30)]),
        (vec![open, again, create], Ok(30))
    );
    assert_eq!(
        get_repo(None, &[Err(1), Err(2), Err(3)]),
        (vec![open, again, create], Err(3))
    );
}

#[test]
fn a_repository_that_is_kept_is_used() {
    assert_eq!(get_repo(Some(5), &[]), (vec![], Ok(5)));
}

#[test]
fn an_update_goes_through_its_stages() {
    let mut r = registry(false, false);
    let mut updated = vec![3];
    assert_eq!(r.current_version(&resolved("aa")), Some("aa".to_string()));
    let mut stage = r.update_index(&updated).unwrap();
    let mut done = Vec::new();
    loop {
        done.push(stage);
        if stage == UpdateStage::Fetch {
            assert_eq!(r.head(&unresolved), Err(1));
            assert_eq!(updated, vec![3]);
        }
        match r.update_step(stage, Ok::<(), u8>(()), &mut updated) {
            UpdateStep::Do(next) => stage = next,
            UpdateStep::Done => break,
            UpdateStep::Failed(_) => panic!("failed"),
        }
    }
    assert_eq!(
        done,
        vec![
            UpdateStage::CheckHttp,
            UpdateStage::Prepare,
            UpdateStage::Announce,
            UpdateStage::Fetch,
            UpdateStage::Record,
        ]
    );
    assert_eq!(updated, vec![3, 5]);
    assert_eq!(r.current_version(&resolved("bb")), Some("bb".to_string()));
    assert_eq!(r.update_index(&updated), None);
}

#[test]
fn an_update_may_not_be_due() {
    assert_eq!(registry(true, false).update_index(&vec![]), None);
    assert_eq!(registry(false, true).update_index(&vec![]), None);
    assert_eq!(registry(false, false).update_index(&vec![5]), None);
    assert_eq!(registry(false, false).update_index(&vec![6]), Some(UpdateStage::CheckHttp));
}

#[test]
fn a_failed_update_changes_nothing_but_what_was_done() {
    let mut r = registry(false, false);
    let mut updated = vec![];
    r.current_version(&resolved("aa"));
    for stage in [UpdateStage::CheckHttp, UpdateStage::Prepare, UpdateStage::Announce] {
        assert!(matches!(r.update_step(stage, Err(4), &mut updated), UpdateStep::Failed(4)));
    }
    assert_eq!(r.head(&unresolved), Ok("aa".to_string()));
    assert!(matches!(
        r.update_step(UpdateStage::Prepare, Ok::<(), u8>(()), &mut updated),
        UpdateStep::Do(UpdateStage::Announce)
    ));
    assert!(matches!(
        r.update_step(UpdateStage::Fetch, Err(5), &mut updated),
        UpdateStep::Failed(5)
    ));
    assert_eq!(updated, Vec::<u64>::new());
    assert_eq!(r.head(&resolved("bb")), Ok("bb".to_string()));
}
