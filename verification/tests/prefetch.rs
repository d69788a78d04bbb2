//! Fetching files in advance.

use registry_index::index::{Config, LoadStep, RegistryIndex, SummariesSearch};
use registry_index::package::{
    Dependency, IndexSummary, LineError, PackageId, RegistryPackage, SourceId, Summary,
};
use registry_index::prefetch::{PrefetchRequest, PrefetchWalk, Prefetched};
use registry_index::summaries::{LoadOutcome, ParseStep, Summaries};
use registry_index::version::{Version, VersionReq};
use serde_json::Value;

const SOURCE: u64 = 7;

fn source() -> SourceId {
    SourceId { id: SOURCE, precise: None }
}

fn version(text: &str) -> Version {
    Version::parse(text).unwrap()
}

/// Reads a line as JSON. Of a dependency it knows the name, the requirement,
/// whether it is for development, and whether it is from elsewhere.
fn parse(line: &[u8]) -> Result<IndexSummary, String> {
    let v: Value = serde_json::from_slice(line).map_err(|e| e.to_string())?;
    let package = RegistryPackage {
        name: v["name"].as_str().ok_or("no name")?.to_string(),
        vers: v["vers"].as_str().ok_or("no vers")?.to_string(),
        cksum: v["cksum"].as_str().unwrap_or("").to_string(),
        deps: v["deps"].as_array().cloned().unwrap_or_default(),
        features: v["features"].as_str().unwrap_or("").to_string(),
        yanked: v["yanked"].as_bool(),
        links: None,
    };
    let into_dep = |d: &Value, s: &SourceId| -> Result<Dependency, String> {
        Ok(Dependency {
            name: d["name"].as_str().ok_or("no dependency name")?.to_string(),
            req: VersionReq::parse(d["req"].as_str().unwrap_or("*"))?,
            source_id: SourceId {
                id: d["source"].as_u64().unwrap_or(s.id),
                precise: None,
            },
            is_transitive: !d["dev"].as_bool().unwrap_or(false),
        })
    };
    let new_summary = |package_id: PackageId,
                       dependencies: Vec<Dependency>,
                       features: &String,
                       _links: Option<String>|
     -> Result<Summary, String> {
        Ok(Summary {
            package_id,
            dependencies,
            checksum: None,
            uses_namespaced_features: features.contains("dep:"),
            uses_weak_dep_features: features.contains('?'),
        })
    };
    match IndexSummary::parse(package, &source(), &into_dep, &new_summary) {
        Ok(s) => Ok(s),
        Err(LineError::Version(e)) => Err(e),
        Err(LineError::Dependency(e)) => Err(e),
        Err(LineError::Summary(e)) => Err(e),
    }
}

/// The summaries that an index file gives.
fn from_index(contents: &str) -> Summaries {
    match Summaries::parse(None, None, false) {
        ParseStep::Load(mut load) => {
            load.read(contents.as_bytes(), &parse);
            match load.finish(Ok::<(), String>(())) {
                Ok(LoadOutcome::Found { summaries, .. }) => summaries,
                _ => panic!("not found"),
            }
        }
        ParseStep::Ready(_) => panic!("nothing to be ready"),
    }
}

fn index(offline: bool) -> RegistryIndex {
    let config = Config { offline, namespaced_features: false, weak_dep_features: false };
    RegistryIndex::new(source(), "/index", config)
}

fn dep(name: &str, req: &str) -> Dependency {
    Dependency {
        name: name.to_string(),
        req: VersionReq::parse(req).unwrap(),
        source_id: source(),
        is_transitive: true,
    }
}

fn locked(name: &str, source: u64) -> PackageId {
    PackageId {
        name: name.to_string(),
        version: version("1.0.0"),
        source_id: SourceId { id: source, precise: None },
    }
}

fn fetched(name: &str, reqs: &[&str], is_transitive: bool) -> Prefetched {
    Prefetched {
        name: name.to_string(),
        version_reqs: reqs.iter().map(|r| VersionReq::parse(r).unwrap()).collect(),
        is_transitive,
    }
}

fn show(requests: &[PrefetchRequest]) -> Vec<(String, bool, bool)> {
    requests.iter().map(|r| (r.name.clone(), r.req.is_some(), r.is_transitive)).collect()
}

fn names(requests: &[PrefetchRequest]) -> Vec<String> {
    for r in requests {
        assert!(r.is_transitive && r.req.is_some());
    }
    requests.iter().map(|r| r.name.clone()).collect()
}

const FILE: &str = r#"{"name":"foo","vers":"1.0.0","deps":[{"name":"a","req":"1"},{"name":"b","req":"1"},{"name":"far","source":9}]}
{"name":"foo","vers":"1.1.0","deps":[{"name":"a","req":"^1"},{"name":"a","req":"2"},{"name":"dev","dev":true}]}
{"name":"foo","vers":"1.2.0","yanked":true,"deps":[{"name":"yanked"}]}
{"name":"foo","vers":"2.0.0","deps":[{"name":"two"}]}
"#;

#[test]
fn the_lock_file_comes_first_and_the_roots_follow() {
    let index = index(false);
    assert!(index.wants_prefetch());
    let deps = vec![dep("x", "1"), dep("y", "1"), dep("x", "^1")];
    let lock = vec![locked("l", SOURCE), locked("m", 8), locked("n", SOURCE)];
    let (_, requests) = index.prefetch(&deps, &lock, true).unwrap();
    assert_eq!(
        show(&requests),
        vec![
            ("l".to_string(), false, true),
            ("n".to_string(), false, true),
            ("x".to_string(), true, false),
            ("y".to_string(), true, false),
            ("x".to_string(), true, false),
        ]
    );
}

#[test]
fn a_locked_package_that_is_listed_twice_is_requested_once() {
    let lock = vec![locked("l", SOURCE), locked("m", SOURCE), locked("l", SOURCE)];
    let (_, requests) = index(false).prefetch(&vec![], &lock, true).unwrap();
    assert_eq!(
        show(&requests),
        vec![("l".to_string(), false, true), ("m".to_string(), false, true)]
    );
}

#[test]
fn equal_requirements_are_requested_once_however_written() {
    let mut index = index(false);
    let roots = vec![dep("a", "1.0"), dep("a", "^1.0")];
    let (mut walk, _) = index.prefetch(&roots, &vec![], true).unwrap();
    let file = fetched("foo", &["*"], true);
    let line = r#"{"name":"foo","vers":"1.0.0","deps":[{"name":"a","req":" ^ 1.0"},{"name":"b","req":"2"},{"name":"b","req":"^2"},{"name":"b","req":"^ 2"}]}"#;
    let step = index.prefetched(&mut walk, &file, Some(from_index(line)), &parse);
    assert_eq!(names(&step.requests), vec!["b"]);
}

#[test]
fn nothing_is_fetched_offline_or_without_support() {
    assert!(index(false).prefetch(&vec![dep("x", "1")], &vec![], false).is_none());
    assert!(index(true).prefetch(&vec![dep("x", "1")], &vec![], true).is_none());
    assert!(!index(true).wants_prefetch());
}

#[test]
fn wanted_versions_are_walked() {
    let mut index = index(false);
    let mut walk = PrefetchWalk::new();
    let file = fetched("foo", &["1"], false);
    let step = index.prefetched(&mut walk, &file, Some(from_index(FILE)), &parse);
    assert!(step.error.is_none());
    assert_eq!(names(&step.requests), vec!["a", "b", "a", "dev"]);
    assert!(index.is_loaded("foo"));
}

#[test]
fn what_was_walked_is_not_walked_again() {
    let mut index = index(false);
    let (mut walk, _) = index.prefetch(&vec![dep("a", "1")], &vec![], true).unwrap();
    let file = fetched("foo", &["1"], true);
    let step = index.prefetched(&mut walk, &file, Some(from_index(FILE)), &parse);
    assert_eq!(names(&step.requests), vec!["b", "a"]);
    let step = index.prefetched(&mut walk, &fetched("foo", &["1"], true), None, &parse);
    assert_eq!(names(&step.requests), Vec::<String>::new());
    let step = index.prefetched(&mut walk, &fetched("foo", &["1", "2"], true), None, &parse);
    assert_eq!(names(&step.requests), vec!["two"]);
}

#[test]
fn a_root_that_is_named_twice_is_walked_once() {
    let mut index = index(false);
    let roots = vec![dep("b", "1"), dep("b", "^1"), dep("a", "^1")];
    let (mut walk, requests) = index.prefetch(&roots, &vec![], true).unwrap();
    assert_eq!(requests.len(), 3);
    let file = fetched("foo", &["=1.0.0"], false);
    let step = index.prefetched(&mut walk, &file, Some(from_index(FILE)), &parse);
    assert_eq!(names(&step.requests), Vec::<String>::new());
}

#[test]
fn development_dependencies_of_dependencies_are_not_fetched() {
    let mut index = index(false);
    let mut walk = PrefetchWalk::new();
    let file = fetched("foo", &["1"], true);
    let step = index.prefetched(&mut walk, &file, Some(from_index(FILE)), &parse);
    assert_eq!(names(&step.requests), vec!["a", "b", "a"]);
}

#[test]
fn without_requirements_nothing_is_walked() {
    let mut index = index(false);
    let mut walk = PrefetchWalk::new();
    let file = fetched("foo", &[], true);
    let step = index.prefetched(&mut walk, &file, Some(from_index(FILE)), &parse);
    assert_eq!(step.requests.len(), 0);
    assert!(index.is_loaded("foo"));
}

#[test]
fn a_file_that_is_missing_leads_nowhere() {
    let mut index = index(false);
    let mut walk = PrefetchWalk::new();
    let step = index.prefetched(&mut walk, &fetched("foo", &["1"], true), None, &parse);
    assert_eq!(step.requests.len(), 0);
    assert!(step.error.is_none());
    assert!(!index.is_loaded("foo"));
}

#[test]
fn summaries_that_were_loaded_before_are_used() {
    let mut index = index(false);
    let mut search = SummariesSearch::new("3/f/foo");
    let step = index.load_summaries("foo", &mut search, Some(from_index("")));
    assert!(matches!(step, LoadStep::Loaded));
    let mut walk = PrefetchWalk::new();
    let file = fetched("foo", &["1"], true);
    let step = index.prefetched(&mut walk, &file, Some(from_index(FILE)), &parse);
    assert_eq!(step.requests.len(), 0);
}

#[test]
fn a_version_that_cannot_be_parsed_ends_the_walk() {
    let cache = b"\x01v\x001.0.0\x00{\"name\":\"foo\",\"vers\":\"1.0.0\",\"deps\":[{\"name\":\"a\"}]}\x001.1.0\x00?\x001.2.0\x00{\"name\":\"foo\",\"vers\":\"1.2.0\",\"deps\":[{\"name\":\"b\"}]}\x00";
    let mut index = index(false);
    let mut walk = PrefetchWalk::new();
    let loaded = Summaries::parse_cache(cache.to_vec(), "v").unwrap();
    let step = index.prefetched(&mut walk, &fetched("foo", &["1"], true), Some(loaded), &parse);
    assert_eq!(names(&step.requests), vec!["a"]);
    assert!(step.error.is_some());
    let step = index.prefetched(&mut walk, &fetched("foo", &["=1.2.0"], true), None, &parse);
    assert_eq!(names(&step.requests), vec!["b"]);
    assert!(step.error.is_none());
}

#[test]
fn dependencies_are_told_apart_by_name_and_requirement() {
    let mut walk = PrefetchWalk::new();
    let one = VersionReq::parse("1").unwrap();
    let caret = VersionReq::parse("^1").unwrap();
    let two = VersionReq::parse("2").unwrap();
    assert!(walk.insert("a", &one));
    assert!(!walk.insert("a", &one));
    assert!(!walk.insert("a", &caret));
    assert!(walk.insert("a", &two));
    assert!(walk.insert("b", &one));
    assert!(walk.insert("b", &VersionReq::any()));
    assert!(!walk.insert("b", &VersionReq::any()));
}
