//! The removal tests check the plan that a look at the path leads to.
//! Carrying it out on disk, and any refusal by the operating system, is the
//! caller's part.

use cotti_build_support::remove::{removal_plan, LookupFailure, PathProbe, Removal, RemoveError};

#[test]
fn remove_file() {
    let path = b"/tmp/.tmpA1b2C3";
    assert_eq!(removal_plan(path, PathProbe::NotDirectory), Ok(Removal::RemoveFile));
}

#[test]
fn remove_folder() {
    let path = b"/tmp/.tmpD4e5F6";
    assert_eq!(removal_plan(path, PathProbe::Directory), Ok(Removal::RemoveTree));
}

#[test]
fn remove_folder_recurse() {
    // The inner directory goes with the outer one: one tree removal.
    let path1 = b"/tmp/.tmpOuter1";
    assert_eq!(removal_plan(path1, PathProbe::Directory), Ok(Removal::RemoveTree));
}

#[test]
fn remove_path_not_exists() {
    let path = b"/tmp/.tmpG7h8I9";
    assert_eq!(removal_plan(path, PathProbe::Directory), Ok(Removal::RemoveTree));
    assert_eq!(
        removal_plan(path, PathProbe::Failed(LookupFailure::NotFound)),
        Ok(Removal::Nothing)
    );
}

#[test]
fn forbidden_remove() {
    // "/root" is a readable directory: its tree is removed, and the refusal
    // for lack of permissions comes from the operating system.
    assert_eq!(removal_plan(b"/root", PathProbe::Directory), Ok(Removal::RemoveTree));
}

#[test]
fn do_not_remove_globs() {
    let path = b"/tmp/*";
    assert!(removal_plan(path, PathProbe::Directory).is_err());
    assert_eq!(
        removal_plan(path, PathProbe::Failed(LookupFailure::NotFound)),
        Err(RemoveError::GlobPattern(b"/tmp/*".to_vec()))
    );
}

#[test]
fn glob_refused_whatever_the_probe() {
    for path in ["/tmp/a?b", "/tmp/[ab]", "*"] {
        for probe in [
            PathProbe::Directory,
            PathProbe::NotDirectory,
            PathProbe::Failed(LookupFailure::NotFound),
            PathProbe::Failed(LookupFailure::NotADirectory),
            PathProbe::Failed(LookupFailure::Other),
        ] {
            assert_eq!(
                removal_plan(path.as_bytes(), probe),
                Err(RemoveError::GlobPattern(path.as_bytes().to_vec()))
            );
        }
    }
}

#[test]
fn below_a_file_is_nothing_to_remove() {
    assert_eq!(
        removal_plan(b"/tmp/file/x", PathProbe::Failed(LookupFailure::NotADirectory)),
        Ok(Removal::Nothing)
    );
}

#[test]
fn failed_probe_is_reported() {
    assert_eq!(
        removal_plan(b"/tmp/unreadable/x", PathProbe::Failed(LookupFailure::Other)),
        Ok(Removal::ReportProbeFailure)
    );
}
