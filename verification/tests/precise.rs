//! Requests to move one package.

use registry_index::precise::{decide_target, read_precise, PreciseError};
use registry_index::version::VersionReq;

fn req(text: &str) -> VersionReq {
    VersionReq::parse(text).unwrap()
}

#[test]
fn a_request_names_the_new_version() {
    assert_eq!(
        read_precise(Some("foo=1.0.0->1.2.3"), "foo", &req("1")),
        Ok(Some("1.2.3".to_string()))
    );
}

#[test]
fn without_a_request_every_version_may_be_offered() {
    assert_eq!(read_precise(None, "foo", &req("1")), Ok(None));
}

#[test]
fn a_request_for_another_package_does_not_matter() {
    assert_eq!(read_precise(Some("food=1.0.0->1.2.3"), "foo", &req("1")), Ok(None));
    assert_eq!(read_precise(Some("fo=1.0.0->1.2.3"), "foo", &req("1")), Ok(None));
    assert_eq!(read_precise(Some("bar=1.0.0->1.2.3"), "foo", &req("1")), Ok(None));
    assert_eq!(read_precise(Some("foo"), "foo", &req("1")), Ok(None));
    assert_eq!(read_precise(Some(""), "foo", &req("1")), Ok(None));
}

#[test]
fn a_request_does_not_matter_to_requirements_that_refuse_the_old_version() {
    assert_eq!(read_precise(Some("foo=1.0.0->1.2.3"), "foo", &req("2")), Ok(None));
    assert_eq!(read_precise(Some("foo=1.0.0"), "foo", &req("2")), Ok(None));
}

#[test]
fn an_old_version_that_cannot_be_read_is_an_error() {
    assert_eq!(
        read_precise(Some("foo=one->1.2.3"), "foo", &req("1")),
        Err(PreciseError::OldVersion)
    );
    assert_eq!(read_precise(Some("foo="), "foo", &req("1")), Err(PreciseError::OldVersion));
}

#[test]
fn a_missing_new_version_is_an_error() {
    assert_eq!(
        read_precise(Some("foo=1.0.0"), "foo", &req("1")),
        Err(PreciseError::NewVersion)
    );
}

#[test]
fn what_a_request_asks_for_is_decided() {
    assert_eq!(decide_target(None, Some("1.0.0")), Err(PreciseError::OldVersion));
    assert_eq!(decide_target(None, None), Err(PreciseError::OldVersion));
    assert_eq!(decide_target(Some(false), Some("1.0.0")), Ok(None));
    assert_eq!(decide_target(Some(false), None), Ok(None));
    assert_eq!(decide_target(Some(true), Some("1.0.0")), Ok(Some("1.0.0".to_string())));
    assert_eq!(decide_target(Some(true), None), Err(PreciseError::NewVersion));
}

#[test]
fn the_first_arrow_counts() {
    assert_eq!(
        read_precise(Some("foo=1.0.0->1.2->3"), "foo", &req("1")),
        Ok(Some("1.2->3".to_string()))
    );
    assert_eq!(
        read_precise(Some("foo=1.0.0->"), "foo", &req("1")),
        Ok(Some("".to_string()))
    );
    assert_eq!(
        read_precise(Some("foo=1.0.0-a->1.0.0-b"), "foo", &req("=1.0.0-a")),
        Ok(Some("1.0.0-b".to_string()))
    );
}
