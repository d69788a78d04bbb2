//! Versions and requirements.

use registry_index::version::{Version, VersionReq};

fn version(text: &str) -> Version {
    Version::parse(text).unwrap()
}

fn req(text: &str) -> VersionReq {
    VersionReq::parse(text).unwrap()
}

#[test]
fn versions_are_read_and_written() {
    for text in [
        "1.2.3",
        "0.0.0",
        "1.0.0-alpha.1",
        "1.0.0-0",
        "1.0.0-01.x",
        "1.0.0+build.7",
        "1.0.0-rc-1.2+20130313144700",
        "18446744073709551615.0.1",
        "1.0.0--",
        "1.0.0-99999999999999999999",
    ] {
        assert_eq!(version(text).to_text(), text);
        assert_eq!(version(&version(text).to_text()).to_text(), text);
    }
}

#[test]
fn blanks_around_a_version_are_dropped() {
    assert_eq!(version("  1.2.3 ").to_text(), "1.2.3");
}

#[test]
fn what_is_no_version_is_refused_with_a_message() {
    assert_eq!(Version::parse("").unwrap_err(), "Error parsing major identifier");
    assert_eq!(Version::parse("1").unwrap_err(), "Expected dot");
    assert_eq!(Version::parse("1.2.3-").unwrap_err(), "Error parsing prerelease");
    assert_eq!(
        Version::parse("1.2.3 abc").unwrap_err(),
        "Extra junk after valid version:  abc"
    );
}

#[test]
fn build_metadata_does_not_tell_versions_apart() {
    assert!(version("1.2.3+a").same(&version("1.2.3+b")));
    assert!(version("1.2.3-a.1").same(&version("1.2.3-a.1")));
    assert!(!version("1.2.3-a.1").same(&version("1.2.3-a.2")));
    assert!(!version("1.2.3-a").same(&version("1.2.3-a.1")));
    assert!(!version("1.2.3-a").same(&version("1.2.3-1")));
    assert!(!version("1.2.3").same(&version("1.2.4")));
    assert!(!version("1.2.3").same(&version("1.3.3")));
    assert!(!version("1.2.3").same(&version("2.2.3")));
}

#[test]
fn a_clone_has_the_same_text() {
    let v = version("1.2.3-rc.1+x.2");
    assert_eq!(v.clone().to_text(), "1.2.3-rc.1+x.2");
}

#[test]
fn requirements_match() {
    assert!(req("^1.2").matches(&version("1.9.0")));
    assert!(!req("^1.2").matches(&version("2.0.0")));
    assert!(!req("^1.2").matches(&version("1.9.0-alpha")));
    assert!(req("1.0.0").matches(&version("1.0.1")));
    assert!(req(">=1.0, <1.5").matches(&version("1.4.9")));
    assert!(!req(">=1.0, <1.5").matches(&version("1.5.0")));
    assert!(req("*").matches(&version("7.0.0")));
    assert!(!req("*").matches(&version("7.0.0-pre")));
}

#[test]
fn anything_meets_no_constraint() {
    assert!(VersionReq::any().matches(&version("7.0.0")));
    assert!(VersionReq::any().matches(&version("7.0.0-pre")));
}

#[test]
fn an_exact_requirement_asks_for_one_version() {
    for text in ["1.2.3", "1.2.3-alpha.1", "0.0.0-0", "1.0.0--", "1.0.0-01.x+b"] {
        let exact = VersionReq::exact(&version(text));
        for other in [
            "1.2.3",
            "1.2.3+meta",
            "1.2.3-alpha.1",
            "1.2.3-alpha",
            "1.2.4",
            "0.0.0",
            "0.0.0-0",
            "1.0.0--",
            "1.0.0-01.x",
        ] {
            assert_eq!(
                exact.matches(&version(other)),
                version(text).same(&version(other)),
                "{} {}",
                text,
                other
            );
        }
    }
}

#[test]
fn the_order_of_compared_requirements_does_not_matter() {
    for (a, b) in [("1.0", "^1.0"), ("1.0", "1.0.0"), ("*", "x"), ("=1.0.0", "1.0.0")] {
        assert_eq!(req(a).same(&req(b)), req(b).same(&req(a)));
    }
    assert!(req("*").same(&req("x")) && req("x").same(&req("X")) && req("*").same(&req("X")));
}

#[test]
fn a_version_holds_no_angle_bracket() {
    for text in ["1.0.0>", "1.0.0->1.0.1", ">1.0.0", "1.0.0-a>b", "1.0.0+a>b"] {
        assert!(Version::parse(text).is_err());
    }
}

#[test]
fn what_is_no_requirement_is_refused() {
    assert_eq!(
        VersionReq::parse("a.0.0").unwrap_err(),
        "the given version requirement is invalid"
    );
    assert_eq!(VersionReq::parse("0.2*").unwrap_err(), "This requirement is deprecated");
}

#[test]
fn requirements_are_compared_by_their_constraints() {
    assert!(req("1.0").same(&req("^1.0")));
    assert!(req("1.0").same(&req("1.0")));
    assert!(!req("1.0").same(&req("1.0.0")));
    assert!(!req("*").same(&VersionReq::any()));
    assert!(VersionReq::any().same(&VersionReq::any()));
    assert!(req("=1.0.0").same(&VersionReq::exact(&version("1.0.0"))));
    assert!(req("1.0").clone().same(&req("1.0")));
}
