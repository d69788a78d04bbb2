//! The summaries of one package.

use registry_index::cache::CacheError;
use registry_index::package::{
    contains_package, Dependency, IndexSummary, LineError, PackageId, RegistryPackage, SourceId,
    Summary,
};
use registry_index::summaries::{LoadOutcome, MaybeIndexSummary, ParseStep, Summaries};
use registry_index::version::{Version, VersionReq};
use serde_json::Value;

const SOURCE: u64 = 7;

fn source() -> SourceId {
    SourceId { id: SOURCE, precise: None }
}

fn version(text: &str) -> Version {
    Version::parse(text).unwrap()
}

/// Reads a line as JSON. Of a dependency it knows the name, the requirement,
/// whether it is for development, and whether it is from elsewhere.
fn parse(line: &[u8]) -> Result<IndexSummary, String> {
    let v: Value = serde_json::from_slice(line).map_err(|e| e.to_string())?;
    let package = RegistryPackage {
        name: v["name"].as_str().ok_or("no name")?.to_string(),
        vers: v["vers"].as_str().ok_or("no vers")?.to_string(),
        cksum: v["cksum"].as_str().unwrap_or("").to_string(),
        deps: v["deps"].as_array().cloned().unwrap_or_default(),
        features: v["features"].as_str().unwrap_or("").to_string(),
        yanked: v["yanked"].as_bool(),
        links: None,
    };
    let into_dep = |d: &Value, s: &SourceId| -> Result<Dependency, String> {
        Ok(Dependency {
            name: d["name"].as_str().ok_or("no dependency name")?.to_string(),
            req: VersionReq::parse(d["req"].as_str().unwrap_or("*"))?,
            source_id: SourceId {
                id: d["source"].as_u64().unwrap_or(s.id),
                precise: None,
            },
            is_transitive: !d["dev"].as_bool().unwrap_or(false),
        })
    };
    let new_summary = |package_id: PackageId,
                       dependencies: Vec<Dependency>,
                       features: &String,
                       _links: Option<String>|
     -> Result<Summary, String> {
        Ok(Summary {
            package_id,
            dependencies,
            checksum: None,
            uses_namespaced_features: features.contains("dep:"),
            uses_weak_dep_features: features.contains('?'),
        })
    };
    match IndexSummary::parse(package, &source(), &into_dep, &new_summary) {
        Ok(s) => Ok(s),
        Err(LineError::Version(e)) => Err(e),
        Err(LineError::Dependency(e)) => Err(e),
        Err(LineError::Summary(e)) => Err(e),
    }
}

/// The summaries that an index file gives.
fn from_index(contents: &str) -> Summaries {
    match Summaries::parse(None, None, false) {
        ParseStep::Load(mut load) => {
            load.read(contents.as_bytes(), &parse);
            match load.finish(Ok::<(), String>(())) {
                Ok(LoadOutcome::Found { summaries, .. }) => summaries,
                _ => panic!("not found"),
            }
        }
        ParseStep::Ready(_) => panic!("nothing to be ready"),
    }
}

const FILE: &str = r#"{"name":"foo","vers":"1.0.0","cksum":"aa"}
{"name":"foo","vers":"1.1.0","cksum":"bb","yanked":true}
this line is from the future
{"name":"foo","vers":"2.0.0","cksum":"cc","features":"dep:x"}
"#;

fn texts(found: &[&IndexSummary]) -> Vec<String> {
    found.iter().map(|s| s.summary.package_id.version.to_text()).collect()
}

#[test]
fn lines_become_summaries() {
    let s = parse(br#"{"name":"foo","vers":"1.0.0","cksum":"aa","deps":[{"name":"bar"}]}"#).unwrap();
    assert_eq!(s.summary.package_id.name, "foo");
    assert_eq!(s.summary.package_id.version.to_text(), "1.0.0");
    assert_eq!(s.summary.package_id.source_id.id, SOURCE);
    assert_eq!(s.summary.checksum, Some("aa".to_string()));
    assert_eq!(s.summary.dependencies.len(), 1);
    assert_eq!(s.summary.dependencies[0].name, "bar");
    assert!(!s.yanked);
    assert!(parse(br#"{"name":"foo","vers":"1.0.0","yanked":true}"#).unwrap().yanked);
    assert!(!parse(br#"{"name":"foo","vers":"1.0.0","yanked":false}"#).unwrap().yanked);
}

#[test]
fn lines_are_refused_for_what_comes_first() {
    let make = |vers: &str, deps: Vec<u8>| RegistryPackage {
        name: "foo".to_string(),
        vers: vers.to_string(),
        cksum: "aa".to_string(),
        deps,
        features: (),
        yanked: None,
        links: None,
    };
    let into_dep = |d: &u8, s: &SourceId| {
        if *d < 10 {
            Ok(Dependency {
                name: format!("d{}", d),
                req: VersionReq::any(),
                source_id: s.clone(),
                is_transitive: true,
            })
        } else {
            Err(*d)
        }
    };
    let new_summary = |package_id, dependencies: Vec<Dependency>, _: &(), _| {
        if dependencies.len() < 3 {
            Ok(Summary {
                package_id,
                dependencies,
                checksum: Some("not this".to_string()),
                uses_namespaced_features: false,
                uses_weak_dep_features: false,
            })
        } else {
            Err(99u8)
        }
    };
    match IndexSummary::parse(make("x", vec![11]), &source(), &into_dep, &new_summary) {
        Err(LineError::Version(m)) => assert_eq!(m, "Error parsing major identifier"),
        r => panic!("{:?}", r),
    }
    match IndexSummary::parse(make("1.0.0", vec![1, 11, 12]), &source(), &into_dep, &new_summary) {
        Err(LineError::Dependency(d)) => assert_eq!(d, 11),
        r => panic!("{:?}", r),
    }
    match IndexSummary::parse(make("1.0.0", vec![1, 2, 3]), &source(), &into_dep, &new_summary) {
        Err(LineError::Summary(e)) => assert_eq!(e, 99),
        r => panic!("{:?}", r),
    }
    let s = IndexSummary::parse(make("1.0.0", vec![1, 2]), &source(), &into_dep, &new_summary);
    let s = s.unwrap();
    assert_eq!(s.summary.checksum, Some("aa".to_string()));
    assert_eq!(s.summary.dependencies[1].name, "d2");
}

#[test]
fn an_index_file_is_parsed_line_by_line() {
    let s = from_index(FILE);
    assert_eq!(s.len(), 3);
    assert_eq!(s.version_at(0).to_text(), "1.0.0");
    assert_eq!(s.version_at(2).to_text(), "2.0.0");
    assert!(matches!(s.summary_at(1), MaybeIndexSummary::Parsed(p) if p.yanked));
}

#[test]
fn the_last_line_of_a_version_counts() {
    let s = from_index(
        "{\"name\":\"foo\",\"vers\":\"1.0.0+a\",\"cksum\":\"aa\"}\n{\"name\":\"foo\",\"vers\":\"1.0.0+b\",\"cksum\":\"bb\"}",
    );
    assert_eq!(s.len(), 1);
    assert_eq!(s.version_at(0).to_text(), "1.0.0+a");
    match s.summary_at(0) {
        MaybeIndexSummary::Parsed(p) => assert_eq!(p.summary.checksum, Some("bb".to_string())),
        MaybeIndexSummary::Unparsed { .. } => panic!("not parsed"),
    }
}

#[test]
fn candidates_match_and_use_no_unstable_feature() {
    let s = from_index(FILE);
    let any = VersionReq::any();
    assert_eq!(texts(&s.candidates(&any, true, false)), vec!["1.0.0", "1.1.0", "2.0.0"]);
    assert_eq!(texts(&s.candidates(&any, false, true)), vec!["1.0.0", "1.1.0"]);
    let one = VersionReq::parse("1.1").unwrap();
    assert_eq!(texts(&s.candidates(&one, true, true)), vec!["1.1.0"]);
}

#[test]
fn unstable_features_are_gated() {
    let line = |f: &str| {
        let text = format!("{{\"name\":\"foo\",\"vers\":\"1.0.0\",\"features\":\"{}\"}}", f);
        parse(text.as_bytes()).unwrap().summary
    };
    assert!(line("").unstable_gate(false, false));
    assert!(!line("dep:x").unstable_gate(false, true));
    assert!(line("dep:x").unstable_gate(true, false));
    assert!(!line("x?").unstable_gate(true, false));
    assert!(line("x?").unstable_gate(false, true));
}

/// The summaries and the cache file that an index file gives.
fn load_with_cache(contents: &str, index_version: &str) -> (Summaries, Vec<u8>) {
    match Summaries::parse(Some(index_version), None, false) {
        ParseStep::Load(mut load) => {
            load.read(contents.as_bytes(), &parse);
            match load.finish(Ok::<(), String>(())) {
                Ok(LoadOutcome::Found { summaries, cache_bytes, is_cache_wrong }) => {
                    assert!(!is_cache_wrong);
                    (summaries, cache_bytes.unwrap())
                }
                _ => panic!("not found"),
            }
        }
        ParseStep::Ready(_) => panic!("nothing to be ready"),
    }
}

#[test]
fn a_cache_file_answers_like_the_index_file() {
    let (from_index, bytes) = load_with_cache(FILE, "abc");
    let mut from_cache = match Summaries::parse(Some("abc"), Some(bytes), false) {
        ParseStep::Ready(s) => s,
        ParseStep::Load(_) => panic!("not fresh"),
    };
    assert_eq!(from_cache.len(), 3);
    assert!(matches!(from_cache.summary_at(0), MaybeIndexSummary::Unparsed { .. }));
    for text in ["*", "1", "=1.1.0", "2", "3"] {
        let req = VersionReq::parse(text).unwrap();
        from_cache.parse_matching(&req, &parse);
        let a = texts(&from_cache.candidates(&req, true, true));
        let b = texts(&from_index.candidates(&req, true, true));
        assert_eq!(a, b);
        from_cache.parse_matching(&req, &parse);
        assert_eq!(texts(&from_cache.candidates(&req, true, true)), a);
    }
}

#[test]
fn only_what_is_asked_for_is_parsed() {
    let (_, bytes) = load_with_cache(FILE, "abc");
    let mut s = Summaries::parse_cache(bytes, "abc").unwrap();
    s.parse_matching(&VersionReq::parse("=1.1.0").unwrap(), &parse);
    assert!(matches!(s.summary_at(0), MaybeIndexSummary::Unparsed { .. }));
    assert!(matches!(s.summary_at(1), MaybeIndexSummary::Parsed(_)));
    assert!(matches!(s.summary_at(2), MaybeIndexSummary::Unparsed { .. }));
    assert_eq!(s.parse_at(0, &parse).unwrap().summary.checksum, Some("aa".to_string()));
    assert!(matches!(s.summary_at(0), MaybeIndexSummary::Parsed(_)));
}

#[test]
fn a_blob_that_cannot_be_parsed_stays_unparsed() {
    let mut s = Summaries::parse_cache(b"\x01v\x001.0.0\x00nonsense\x00".to_vec(), "v").unwrap();
    assert!(s.parse_at(0, &parse).is_err());
    assert!(matches!(s.summary_at(0), MaybeIndexSummary::Unparsed { start: 9, end: 17 }));
    s.parse_matching(&VersionReq::any(), &parse);
    assert_eq!(s.candidates(&VersionReq::any(), true, true).len(), 0);
}

#[test]
fn maybe_summaries_are_parsed_once() {
    let data = br#"..{"name":"foo","vers":"1.0.0"}.."#;
    let mut maybe = MaybeIndexSummary::Unparsed { start: 2, end: data.len() - 2 };
    assert_eq!(maybe.parse(data, &parse).unwrap().summary.package_id.name, "foo");
    let refuse = |_: &[u8]| -> Result<IndexSummary, String> { Err("asked".to_string()) };
    assert_eq!(maybe.parse(b"", &refuse).unwrap().summary.package_id.name, "foo");
    let mut made = MaybeIndexSummary::from(parse(&data[2..data.len() - 2]).unwrap());
    assert!(made.parse(b"", &refuse).is_ok());
    let mut bad = MaybeIndexSummary::Unparsed { start: 0, end: 2 };
    assert_eq!(bad.parse(data, &refuse).unwrap_err(), "asked");
}

#[test]
fn a_cache_file_is_used_only_if_it_is_fresh() {
    let (_, bytes) = load_with_cache(FILE, "abc");
    assert!(matches!(
        Summaries::parse(Some("abc"), Some(bytes.clone()), false),
        ParseStep::Ready(_)
    ));
    assert!(matches!(
        Summaries::parse(Some("abd"), Some(bytes.clone()), false),
        ParseStep::Load(_)
    ));
    assert!(matches!(Summaries::parse(None, Some(bytes.clone()), false), ParseStep::Load(_)));
    assert!(matches!(Summaries::parse(Some("abc"), None, false), ParseStep::Load(_)));
    assert!(matches!(Summaries::parse(Some("abc"), Some(bytes), true), ParseStep::Load(_)));
    assert!(matches!(
        Summaries::parse_cache(vec![], "abc"),
        Err(CacheError::MalformedCache)
    ));
}

fn checked(cache: &[u8], contents: Option<&str>) -> Result<LoadOutcome, String> {
    match Summaries::parse(Some("abc"), Some(cache.to_vec()), true) {
        ParseStep::Load(mut load) => {
            if let Some(contents) = contents {
                load.read(contents.as_bytes(), &parse);
            }
            load.finish(Ok(()))
        }
        ParseStep::Ready(_) => panic!("not checked"),
    }
}

#[test]
fn a_fresh_cache_file_can_be_checked() {
    let (_, bytes) = load_with_cache(FILE, "abc");
    assert!(matches!(
        checked(&bytes, Some(FILE)),
        Ok(LoadOutcome::Found { is_cache_wrong: false, .. })
    ));
    assert!(matches!(
        checked(&bytes, Some("")),
        Ok(LoadOutcome::Found { is_cache_wrong: true, .. })
    ));
    assert!(matches!(
        checked(&bytes, None),
        Ok(LoadOutcome::Missing { has_fresh_cache: true })
    ));
    assert!(matches!(
        checked(b"stale", None),
        Ok(LoadOutcome::Missing { has_fresh_cache: false })
    ));
}

#[test]
fn errors_count_once_a_file_was_read() {
    let start = || match Summaries::parse(None, None, false) {
        ParseStep::Load(load) => load,
        ParseStep::Ready(_) => panic!("nothing to be ready"),
    };
    assert!(matches!(
        start().finish(Err("lookup")),
        Ok(LoadOutcome::Missing { has_fresh_cache: false })
    ));
    let mut load = start();
    load.read(b"", &parse);
    assert!(matches!(load.finish(Err("after")), Err("after")));
    let mut load = start();
    load.read(b"", &parse);
    assert!(matches!(
        load.finish(Ok::<(), ()>(())),
        Ok(LoadOutcome::Found { cache_bytes: None, .. })
    ));
}

#[test]
fn packages_are_told_apart_by_name_version_and_source() {
    let id = |name: &str, v: &str, source: u64| PackageId {
        name: name.to_string(),
        version: version(v),
        source_id: SourceId { id: source, precise: None },
    };
    let list = vec![id("a", "1.0.0", 1), id("b", "1.0.0", 1)];
    assert!(contains_package(&list, &id("b", "1.0.0+meta", 1)));
    assert!(!contains_package(&list, &id("b", "1.0.1", 1)));
    assert!(!contains_package(&list, &id("c", "1.0.0", 1)));
    assert!(!contains_package(&list, &id("b", "1.0.0", 2)));
    assert!(!contains_package(&vec![], &id("b", "1.0.0", 1)));
}
