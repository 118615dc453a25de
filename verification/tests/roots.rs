//! Tests for building, validating and rebasing search-root lists.

use uapi_config::SearchDirectories;
use uapi_config::paths::{validate_path, path_join, dropin_dir_path, rebase_path};
use uapi_config::scan::OpenOutcome;

fn roots_of(sd: &SearchDirectories) -> Vec<Vec<u8>> {
    sd.root_paths().clone()
}

#[test]
fn validate_path_accepts_absolute_paths() {
    assert!(validate_path(&b"/etc".to_vec()).is_ok());
    assert!(validate_path(&b"/".to_vec()).is_ok());
    assert!(validate_path(&b"/a/b/c".to_vec()).is_ok());
    assert!(validate_path(&b"/a/./b".to_vec()).is_ok());
    assert!(validate_path(&b"/a/..b/c..".to_vec()).is_ok());
    assert!(validate_path(&b"/a/.../b".to_vec()).is_ok());
}

#[test]
fn validate_path_rejects_relative_and_parent() {
    assert!(validate_path(&b"".to_vec()).is_err());
    assert!(validate_path(&b"etc".to_vec()).is_err());
    assert!(validate_path(&b"a/b".to_vec()).is_err());
    assert!(validate_path(&b"/a/../b".to_vec()).is_err());
    assert!(validate_path(&b"/..".to_vec()).is_err());
    assert!(validate_path(&b"/a/b/..".to_vec()).is_err());
}

#[test]
fn empty_and_presets() {
    assert_eq!(roots_of(&SearchDirectories::empty()), Vec::<Vec<u8>>::new());
    assert_eq!(
        roots_of(&SearchDirectories::classic_system()),
        vec![b"/usr/lib".to_vec(), b"/var/run".to_vec(), b"/etc".to_vec()]
    );
    assert_eq!(
        roots_of(&SearchDirectories::modern_system()),
        vec![b"/usr/etc".to_vec(), b"/run".to_vec(), b"/etc".to_vec()]
    );
    assert_eq!(roots_of(&SearchDirectories::default()), Vec::<Vec<u8>>::new());
}

#[test]
fn push_appends_valid_roots_and_rejects_invalid_ones() {
    let mut sd = SearchDirectories::empty();
    assert!(sd.push(b"/usr/etc".to_vec()).is_ok());
    assert!(sd.push(b"relative".to_vec()).is_err());
    assert!(sd.push(b"/has/../parent".to_vec()).is_err());
    assert!(sd.push(b"/etc".to_vec()).is_ok());
    assert_eq!(roots_of(&sd), vec![b"/usr/etc".to_vec(), b"/etc".to_vec()]);
}

#[test]
fn chroot_rebases_every_root() {
    let sd = SearchDirectories::modern_system();
    let sd = sd.chroot(&b"/srv/jail".to_vec()).unwrap();
    assert_eq!(
        roots_of(&sd),
        vec![
            b"/srv/jail/usr/etc".to_vec(),
            b"/srv/jail/run".to_vec(),
            b"/srv/jail/etc".to_vec(),
        ]
    );
}

#[test]
fn chroot_rejects_invalid_base() {
    assert!(SearchDirectories::modern_system().chroot(&b"jail".to_vec()).is_err());
    assert!(SearchDirectories::modern_system().chroot(&b"/jail/../x".to_vec()).is_err());
}

#[test]
fn rebase_drops_root_and_current_dir_segments() {
    let r = rebase_path(&b"/base".to_vec(), &b"/usr//./etc".to_vec());
    assert_eq!(r, b"/base/usr/etc".to_vec());
    let r = rebase_path(&b"/base".to_vec(), &b"/".to_vec());
    assert_eq!(r, b"/base".to_vec());
}

#[test]
fn chroot_then_push_parent_still_fails() {
    // Rebasing must not open a door for parent-directory segments: a root
    // containing ".." is rejected afterwards exactly as before.
    let sd = SearchDirectories::modern_system();
    let mut sd = sd.chroot(&b"/jail".to_vec()).unwrap();
    assert!(sd.push(b"/jail/../escape".to_vec()).is_err());
    assert_eq!(
        roots_of(&sd),
        vec![
            b"/jail/usr/etc".to_vec(),
            b"/jail/run".to_vec(),
            b"/jail/etc".to_vec(),
        ]
    );
}

#[test]
fn user_directory_absent_or_invalid_changes_nothing() {
    let sd = SearchDirectories::modern_system();
    let before = roots_of(&sd);
    let sd = sd.with_user_directory_from(None);
    assert_eq!(roots_of(&sd), before);
    let sd = sd.with_user_directory_from(Some(b"".to_vec()));
    assert_eq!(roots_of(&sd), before);
    let sd = sd.with_user_directory_from(Some(b"relative/config".to_vec()));
    assert_eq!(roots_of(&sd), before);
}

#[test]
fn user_directory_valid_is_appended_last() {
    let sd = SearchDirectories::modern_system();
    let sd = sd.with_user_directory_from(Some(b"/home/me/.config".to_vec()));
    assert_eq!(
        roots_of(&sd),
        vec![
            b"/usr/etc".to_vec(),
            b"/run".to_vec(),
            b"/etc".to_vec(),
            b"/home/me/.config".to_vec(),
        ]
    );
}

#[test]
fn with_user_directory_appends_at_most_one_root() {
    // Whatever the environment holds, the list keeps its prefix and grows by
    // at most one valid root.
    let before = roots_of(&SearchDirectories::modern_system());
    let sd = SearchDirectories::modern_system().with_user_directory();
    let after = roots_of(&sd);
    assert!(after.len() == before.len() || after.len() == before.len() + 1);
    assert_eq!(&after[..before.len()], &before[..]);
    if after.len() > before.len() {
        assert!(validate_path(&after[before.len()]).is_ok());
    }
}

#[test]
fn path_join_and_dropin_dir_exact_bytes() {
    assert_eq!(path_join(&b"/etc".to_vec(), &b"foo".to_vec()), b"/etc/foo".to_vec());
    assert_eq!(
        dropin_dir_path(&b"/etc".to_vec(), &b"foo.conf".to_vec()),
        b"/etc/foo.conf.d".to_vec()
    );
}

#[test]
fn main_candidates_are_highest_priority_first() {
    let mut sd = SearchDirectories::empty();
    sd.push(b"/low".to_vec()).unwrap();
    sd.push(b"/high".to_vec()).unwrap();
    let scoped = sd.with_file_name(b"x.conf".to_vec());
    let mut ms = scoped.main_scan();
    let mut tried = Vec::new();
    while let Some(p) = ms.next_candidate() {
        tried.push(p);
        ms.report(OpenOutcome::MissingFile);
    }
    assert_eq!(tried, vec![b"/high/x.conf".to_vec(), b"/low/x.conf".to_vec()]);
    assert!(ms.is_complete());
    assert_eq!(ms.finish(), None);
}
