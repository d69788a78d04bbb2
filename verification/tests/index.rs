//! Questions to the index of a registry.

use registry_index::index::{Config, IndexError, LoadStep, RegistryIndex, SummariesSearch};
use registry_index::package::{
    Dependency, IndexSummary, LineError, PackageId, RegistryPackage, SourceId, Summary,
};
use registry_index::precise::PreciseError;
use registry_index::summaries::{LoadOutcome, ParseStep, Summaries};
use registry_index::version::{Version, VersionReq};
use serde_json::Value;

const SOURCE: u64 = 7;

fn source() -> SourceId {
    SourceId { id: SOURCE, precise: None }
}

fn version(text: &str) -> Version {
    Version::parse(text).unwrap()
}

/// Reads a line as JSON. Of a dependency it knows the name, the requirement,
/// whether it is for development, and whether it is from elsewhere.
fn parse(line: &[u8]) -> Result<IndexSummary, String> {
    let v: Value = serde_json::from_slice(line).map_err(|e| e.to_string())?;
    let package = RegistryPackage {
        name: v["name"].as_str().ok_or("no name")?.to_string(),
        vers: v["vers"].as_str().ok_or("no vers")?.to_string(),
        cksum: v["cksum"].as_str().unwrap_or("").to_string(),
        deps: v["deps"].as_array().cloned().unwrap_or_default(),
        features: v["features"].as_str().unwrap_or("").to_string(),
        yanked: v["yanked"].as_bool(),
        links: None,
    };
    let into_dep = |d: &Value, s: &SourceId| -> Result<Dependency, String> {
        Ok(Dependency {
            name: d["name"].as_str().ok_or("no dependency name")?.to_string(),
            req: VersionReq::parse(d["req"].as_str().unwrap_or("*"))?,
            source_id: SourceId {
                id: d["source"].as_u64().unwrap_or(s.id),
                precise: None,
            },
            is_transitive: !d["dev"].as_bool().unwrap_or(false),
        })
    };
    let new_summary = |package_id: PackageId,
                       dependencies: Vec<Dependency>,
                       features: &String,
                       _links: Option<String>|
     -> Result<Summary, String> {
        Ok(Summary {
            package_id,
            dependencies,
            checksum: None,
            uses_namespaced_features: features.contains("dep:"),
            uses_weak_dep_features: features.contains('?'),
        })
    };
    match IndexSummary::parse(package, &source(), &into_dep, &new_summary) {
        Ok(s) => Ok(s),
        Err(LineError::Version(e)) => Err(e),
        Err(LineError::Dependency(e)) => Err(e),
        Err(LineError::Summary(e)) => Err(e),
    }
}

/// The summaries that an index file gives.
fn from_index(contents: &str) -> Summaries {
    match Summaries::parse(None, None, false) {
        ParseStep::Load(mut load) => {
            load.read(contents.as_bytes(), &parse);
            match load.finish(Ok::<(), String>(())) {
                Ok(LoadOutcome::Found { summaries, .. }) => summaries,
                _ => panic!("not found"),
            }
        }
        ParseStep::Ready(_) => panic!("nothing to be ready"),
    }
}

const FILE: &str = r#"{"name":"foo","vers":"1.0.0","cksum":"aa"}
{"name":"foo","vers":"1.1.0","cksum":"bb","yanked":true}
{"name":"foo","vers":"1.2.0","cksum":"cc"}
{"name":"foo","vers":"2.0.0","cksum":"dd","features":"dep:x"}
"#;

fn config(offline: bool) -> Config {
    Config { offline, namespaced_features: false, weak_dep_features: false }
}

fn loaded(source_id: SourceId, offline: bool) -> RegistryIndex {
    let mut index = RegistryIndex::new(source_id, "/index", config(offline));
    let mut search = SummariesSearch::new("3/f/foo");
    let step = index.load_summaries("foo", &mut search, Some(from_index(FILE)));
    assert!(matches!(step, LoadStep::Loaded));
    index
}

fn package(v: &str) -> PackageId {
    PackageId { name: "foo".to_string(), version: version(v), source_id: source() }
}

fn dependency(req: &str) -> Dependency {
    Dependency {
        name: "foo".to_string(),
        req: VersionReq::parse(req).unwrap(),
        source_id: source(),
        is_transitive: true,
    }
}

fn query(
    index: &mut RegistryIndex,
    req: &str,
    whitelist: Vec<PackageId>,
    have: &[&str],
) -> Vec<String> {
    let is_downloaded = |p: &PackageId| have.contains(&p.version.to_text().as_str());
    let found = index.query_inner(&dependency(req), &whitelist, &is_downloaded, &parse).unwrap();
    found.iter().map(|s| s.package_id.version.to_text()).collect()
}

#[test]
fn nothing_is_answered_before_it_is_loaded() {
    let mut index = RegistryIndex::new(source(), "/index", config(false));
    assert_eq!(index.path(), "/index");
    assert!(!index.is_loaded("foo"));
    assert!(matches!(
        index.summaries("foo", &VersionReq::any(), &parse),
        Err(IndexError::NotLoaded)
    ));
    assert!(matches!(index.hash(&package("1.0.0"), &parse), Err(IndexError::NotLoaded)));
    assert!(matches!(index.is_yanked(&package("1.0.0"), &parse), Err(IndexError::NotLoaded)));
    assert!(matches!(
        index.query_inner(&dependency("1"), &vec![], &|_: &PackageId| true, &parse),
        Err(IndexError::NotLoaded)
    ));
}

#[test]
fn spellings_are_tried_until_one_is_found() {
    let mut index = RegistryIndex::new(source(), "/index", config(false));
    let mut search = SummariesSearch::new("fo/o-/foo-bar");
    let mut tried = Vec::new();
    let mut found = None;
    loop {
        match index.load_summaries("foo-bar", &mut search, found.take()) {
            LoadStep::Loaded => break,
            LoadStep::Try(path) => {
                if path == "fo/o-/foo_bar" {
                    found = Some(from_index(FILE));
                }
                tried.push(path);
            }
        }
    }
    assert_eq!(tried, vec!["fo/o-/foo-bar", "fo/o_/foo-bar", "fo/o-/foo_bar"]);
    assert_eq!(index.summaries("foo-bar", &VersionReq::any(), &parse).unwrap().len(), 3);
}

#[test]
fn a_package_that_is_not_found_has_no_summaries() {
    let mut index = RegistryIndex::new(source(), "/index", config(false));
    let mut search = SummariesSearch::new("3/f/foo");
    assert!(matches!(index.load_summaries("foo", &mut search, None), LoadStep::Try(_)));
    assert!(matches!(index.load_summaries("foo", &mut search, None), LoadStep::Loaded));
    assert!(index.is_loaded("foo"));
    assert_eq!(index.summaries("foo", &VersionReq::any(), &parse).unwrap().len(), 0);
}

#[test]
fn no_more_than_1024_spellings_are_tried() {
    let mut index = RegistryIndex::new(source(), "/index", config(false));
    let path = "a-".repeat(12);
    let mut search = SummariesSearch::new(&path);
    let mut tried = 0;
    while let LoadStep::Try(_) = index.load_summaries("x", &mut search, None) {
        tried += 1;
    }
    assert_eq!(tried, 1024);
    assert!(index.is_loaded("x"));
}

#[test]
fn what_is_loaded_is_kept() {
    let mut index = loaded(source(), false);
    let mut search = SummariesSearch::new("3/f/foo");
    assert!(matches!(index.load_summaries("foo", &mut search, None), LoadStep::Loaded));
    let again = index.load_summaries("foo", &mut search, Some(from_index("")));
    assert!(matches!(again, LoadStep::Loaded));
    assert_eq!(index.summaries("foo", &VersionReq::any(), &parse).unwrap().len(), 3);
}

#[test]
fn an_updated_file_is_forgotten() {
    let mut index = loaded(source(), false);
    assert!(!index.update_index_file("foo", false));
    assert!(index.is_loaded("foo"));
    assert!(index.update_index_file("bar", true));
    assert!(index.is_loaded("foo"));
    assert!(index.update_index_file("foo", true));
    assert!(!index.is_loaded("foo"));
}

#[test]
fn hashes_are_those_of_the_version() {
    let mut index = loaded(source(), false);
    assert_eq!(index.hash(&package("1.0.0"), &parse).unwrap(), "aa");
    assert_eq!(index.hash(&package("1.2.0+x"), &parse).unwrap(), "cc");
    assert!(matches!(index.hash(&package("1.3.0"), &parse), Err(IndexError::NoHash)));
    assert!(matches!(index.hash(&package("2.0.0"), &parse), Err(IndexError::NoHash)));
}

#[test]
fn a_summary_without_checksum_has_no_hash() {
    let mut index = RegistryIndex::new(source(), "/index", config(false));
    let no_checksum = |line: &[u8]| {
        parse(line).map(|mut s| {
            s.summary.checksum = None;
            s
        })
    };
    let summaries = Summaries::parse_cache(
        b"\x01v\x001.0.0\x00{\"name\":\"foo\",\"vers\":\"1.0.0\"}\x00".to_vec(),
        "v",
    )
    .unwrap();
    let mut search = SummariesSearch::new("3/f/foo");
    index.load_summaries("foo", &mut search, Some(summaries));
    assert!(matches!(index.hash(&package("1.0.0"), &no_checksum), Err(IndexError::NoHash)));
}

#[test]
fn yanked_versions_are_known() {
    let mut index = loaded(source(), false);
    assert!(index.is_yanked(&package("1.1.0"), &parse).unwrap());
    assert!(!index.is_yanked(&package("1.0.0"), &parse).unwrap());
    assert!(!index.is_yanked(&package("9.0.0"), &parse).unwrap());
}

#[test]
fn queries_leave_out_what_is_yanked() {
    let mut index = loaded(source(), false);
    assert_eq!(query(&mut index, "1", vec![], &[]), vec!["1.0.0", "1.2.0"]);
    assert_eq!(
        query(&mut index, "1", vec![package("1.1.0")], &[]),
        vec!["1.0.0", "1.1.0", "1.2.0"]
    );
    assert_eq!(query(&mut index, "1", vec![package("1.1.1")], &[]), vec!["1.0.0", "1.2.0"]);
    assert_eq!(query(&mut index, "3", vec![], &[]), Vec::<String>::new());
}

#[test]
fn offline_queries_prefer_what_was_downloaded() {
    let mut index = loaded(source(), true);
    assert_eq!(query(&mut index, "1", vec![], &["1.2.0"]), vec!["1.2.0"]);
    assert_eq!(query(&mut index, "1", vec![], &[]), vec!["1.0.0", "1.2.0"]);
    assert_eq!(query(&mut index, "1", vec![], &["1.1.0"]), vec!["1.0.0", "1.2.0"]);
    assert_eq!(query(&mut index, "1", vec![package("1.1.0")], &["1.1.0"]), vec!["1.1.0"]);
    let mut online = loaded(source(), false);
    assert_eq!(query(&mut online, "1", vec![], &["1.2.0"]), vec!["1.0.0", "1.2.0"]);
}

#[test]
fn nobody_is_asked_about_downloads_when_online() {
    let mut index = loaded(source(), false);
    let is_downloaded = |_: &PackageId| -> bool { panic!("asked") };
    let found = index.query_inner(&dependency("1"), &vec![], &is_downloaded, &parse).unwrap();
    assert_eq!(found.len(), 2);
}

fn pinned(text: &str) -> SourceId {
    SourceId { id: SOURCE, precise: Some(text.to_string()) }
}

#[test]
fn a_pinned_registry_offers_one_version() {
    let mut index = loaded(pinned("foo=1.2.0->1.0.0"), false);
    assert_eq!(query(&mut index, "1", vec![], &[]), vec!["1.0.0"]);
    let mut other = loaded(pinned("bar=1.2.0->1.0.0"), false);
    assert_eq!(query(&mut other, "1", vec![], &[]), vec!["1.0.0", "1.2.0"]);
    let mut absent = loaded(pinned("foo=1.2.0->1.9.0"), false);
    assert_eq!(query(&mut absent, "1", vec![], &[]), Vec::<String>::new());
    let mut unmet = loaded(pinned("foo=2.0.0->1.0.0"), false);
    assert_eq!(query(&mut unmet, "1", vec![], &[]), vec!["1.0.0", "1.2.0"]);
}

#[test]
fn a_malformed_pin_matters_where_there_is_a_choice() {
    let mut index = loaded(pinned("foo=?->1.0.0"), false);
    assert!(matches!(
        index.query_inner(&dependency("1"), &vec![], &|_: &PackageId| true, &parse),
        Err(IndexError::Precise(PreciseError::OldVersion))
    ));
    assert_eq!(query(&mut index, "3", vec![], &[]), Vec::<String>::new());
    let mut index = loaded(pinned("foo=1.0.0"), true);
    assert!(matches!(
        index.query_inner(&dependency("1"), &vec![], &|_: &PackageId| true, &parse),
        Err(IndexError::Precise(PreciseError::NewVersion))
    ));
}
