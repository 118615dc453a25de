//! Scenario tests that drive the discovery scans against a simulated
//! filesystem: directories with listings, regular files, and files of other
//! kinds.

use uapi_config::SearchDirectories;
use uapi_config::dropin::{DropinEntry, DropinScan};
use uapi_config::scan::{ListOutcome, MainFileScan, OpenOutcome};

/// A simulated filesystem: existing directories with their raw listings, and
/// the set of existing regular files.
struct SimFs {
    dirs: Vec<(Vec<u8>, Vec<Vec<u8>>)>,
    regular: Vec<Vec<u8>>,
    nonregular: Vec<Vec<u8>>,
}

impl SimFs {
    fn open(&self, path: &Vec<u8>) -> OpenOutcome {
        if self.regular.contains(path) {
            OpenOutcome::Opened { regular: true }
        } else if self.nonregular.contains(path) {
            OpenOutcome::Opened { regular: false }
        } else {
            OpenOutcome::MissingFile
        }
    }

    fn list(&self, dir: &Vec<u8>) -> ListOutcome {
        for (d, names) in &self.dirs {
            if d == dir {
                return ListOutcome::Listed(names.clone());
            }
        }
        ListOutcome::MissingDir
    }
}

/// Runs the main-file scan to completion; returns the resolved path and every
/// path that was opened along the way.
fn run_main(mut ms: MainFileScan, fs: &SimFs) -> (Option<Vec<u8>>, Vec<Vec<u8>>) {
    let mut opened = Vec::new();
    while let Some(path) = ms.next_candidate() {
        let outcome = fs.open(&path);
        if !matches!(outcome, OpenOutcome::MissingFile) {
            opened.push(path);
        }
        ms.report(outcome);
    }
    assert!(ms.is_complete());
    (ms.finish(), opened)
}

/// Runs the drop-in scan to completion; returns the recorded entries and
/// every path that was opened along the way.
fn run_dropins(mut ds: DropinScan, fs: &SimFs) -> (Vec<DropinEntry>, Vec<Vec<u8>>) {
    let mut opened = Vec::new();
    loop {
        if let Some(dir) = ds.next_dir() {
            ds.report_listing(fs.list(&dir));
            while let Some((_name, path)) = ds.next_open() {
                let outcome = fs.open(&path);
                if !matches!(outcome, OpenOutcome::MissingFile) {
                    opened.push(path);
                }
                ds.report_open(outcome);
            }
        } else {
            break;
        }
    }
    assert!(ds.is_complete());
    (ds.finish(), opened)
}

fn modern_roots() -> SearchDirectories {
    let mut sd = SearchDirectories::empty();
    sd.push(b"/usr/etc".to_vec()).unwrap();
    sd.push(b"/run".to_vec()).unwrap();
    sd.push(b"/etc".to_vec()).unwrap();
    sd
}

fn paths_of(entries: &[DropinEntry]) -> Vec<Vec<u8>> {
    entries.iter().map(|e| e.path.clone()).collect()
}

#[test]
fn project_and_file_name_yields_main_then_dropins() {
    // Files exist at /etc/foo/a.conf and /etc/foo/a.conf.d/b.conf only.
    let fs = SimFs {
        dirs: vec![(b"/etc/foo/a.conf.d".to_vec(), vec![b"b.conf".to_vec()])],
        regular: vec![b"/etc/foo/a.conf".to_vec(), b"/etc/foo/a.conf.d/b.conf".to_vec()],
        nonregular: vec![],
    };
    let scoped = modern_roots().with_project(b"foo".to_vec()).with_file_name(b"a.conf".to_vec());
    let (main, _) = run_main(scoped.main_scan(), &fs);
    let (entries, _) = run_dropins(scoped.dropin_scan(b".conf".to_vec()), &fs);
    let mut yielded = Vec::new();
    yielded.extend(main);
    yielded.extend(paths_of(&entries));
    assert_eq!(
        yielded,
        vec![b"/etc/foo/a.conf".to_vec(), b"/etc/foo/a.conf.d/b.conf".to_vec()]
    );
}

#[test]
fn main_file_highest_priority_root_wins() {
    // a.conf exists in both /run/foo and /etc/foo: only /etc/foo/a.conf is
    // returned, and the /run copy is never opened.
    let fs = SimFs {
        dirs: vec![],
        regular: vec![b"/run/foo/a.conf".to_vec(), b"/etc/foo/a.conf".to_vec()],
        nonregular: vec![],
    };
    let scoped = modern_roots().with_project(b"foo".to_vec()).with_file_name(b"a.conf".to_vec());
    let (main, opened) = run_main(scoped.main_scan(), &fs);
    assert_eq!(main, Some(b"/etc/foo/a.conf".to_vec()));
    assert_eq!(opened, vec![b"/etc/foo/a.conf".to_vec()]);
}

#[test]
fn dropins_sorted_across_roots() {
    // With no file name, only the project's .d directories are searched; the
    // yield order is ascending by file name no matter which root held which.
    let fs = SimFs {
        dirs: vec![
            (b"/usr/etc/foo.d".to_vec(), vec![b"b.conf".to_vec()]),
            (b"/run/foo.d".to_vec(), vec![b"c.conf".to_vec()]),
            (b"/etc/foo.d".to_vec(), vec![b"a.conf".to_vec()]),
        ],
        regular: vec![
            b"/usr/etc/foo.d/b.conf".to_vec(),
            b"/run/foo.d/c.conf".to_vec(),
            b"/etc/foo.d/a.conf".to_vec(),
        ],
        nonregular: vec![],
    };
    let scoped = modern_roots().with_project(b"foo".to_vec());
    let (entries, _) = run_dropins(scoped.dropin_scan(b".conf".to_vec()), &fs);
    assert_eq!(
        paths_of(&entries),
        vec![
            b"/etc/foo.d/a.conf".to_vec(),
            b"/usr/etc/foo.d/b.conf".to_vec(),
            b"/run/foo.d/c.conf".to_vec(),
        ]
    );
}

#[test]
fn shadowed_dropin_never_opened() {
    // b.conf exists in the drop-in directories of /etc (high priority) and
    // /usr/etc (low): the /etc copy wins and the /usr/etc copy is never
    // opened.
    let fs = SimFs {
        dirs: vec![
            (b"/usr/etc/foo.d".to_vec(), vec![b"b.conf".to_vec(), b"z.conf".to_vec()]),
            (b"/etc/foo.d".to_vec(), vec![b"b.conf".to_vec()]),
        ],
        regular: vec![
            b"/usr/etc/foo.d/b.conf".to_vec(),
            b"/usr/etc/foo.d/z.conf".to_vec(),
            b"/etc/foo.d/b.conf".to_vec(),
        ],
        nonregular: vec![],
    };
    let scoped = modern_roots().with_project(b"foo".to_vec());
    let (entries, opened) = run_dropins(scoped.dropin_scan(b".conf".to_vec()), &fs);
    assert_eq!(
        paths_of(&entries),
        vec![b"/etc/foo.d/b.conf".to_vec(), b"/usr/etc/foo.d/z.conf".to_vec()]
    );
    assert!(!opened.contains(&b"/usr/etc/foo.d/b.conf".to_vec()));
}

#[test]
fn suffix_filter_is_exact_byte_suffix() {
    let fs = SimFs {
        dirs: vec![(
            b"/etc/foo.d".to_vec(),
            vec![
                b"a.conf".to_vec(),
                b"b.CONF".to_vec(),
                b"conf".to_vec(),
                b".conf".to_vec(),
                b"c.conf.bak".to_vec(),
            ],
        )],
        regular: vec![
            b"/etc/foo.d/a.conf".to_vec(),
            b"/etc/foo.d/b.CONF".to_vec(),
            b"/etc/foo.d/conf".to_vec(),
            b"/etc/foo.d/.conf".to_vec(),
            b"/etc/foo.d/c.conf.bak".to_vec(),
        ],
        nonregular: vec![],
    };
    let scoped = modern_roots().with_project(b"foo".to_vec());
    let (entries, _) = run_dropins(scoped.dropin_scan(b".conf".to_vec()), &fs);
    assert_eq!(
        paths_of(&entries),
        vec![b"/etc/foo.d/.conf".to_vec(), b"/etc/foo.d/a.conf".to_vec()]
    );
}

#[test]
fn empty_root_list_yields_nothing() {
    let fs = SimFs { dirs: vec![], regular: vec![], nonregular: vec![] };
    let scoped = SearchDirectories::empty()
        .with_project(b"foo".to_vec())
        .with_file_name(b"a.conf".to_vec());
    let (main, opened) = run_main(scoped.main_scan(), &fs);
    assert_eq!(main, None);
    assert_eq!(opened, Vec::<Vec<u8>>::new());
    let (entries, opened) = run_dropins(scoped.dropin_scan(b".conf".to_vec()), &fs);
    assert!(entries.is_empty());
    assert_eq!(opened, Vec::<Vec<u8>>::new());
}

#[test]
fn non_regular_files_are_skipped_not_fatal() {
    // The /etc candidate exists but is a directory: the scan keeps going and
    // resolves the /run candidate instead.
    let fs = SimFs {
        dirs: vec![],
        regular: vec![b"/run/x.conf".to_vec()],
        nonregular: vec![b"/etc/x.conf".to_vec()],
    };
    let scoped = modern_roots().with_file_name(b"x.conf".to_vec());
    let (main, _) = run_main(scoped.main_scan(), &fs);
    assert_eq!(main, Some(b"/run/x.conf".to_vec()));
}

#[test]
fn unexpected_failure_aborts_main_scan() {
    let mut ms = modern_roots().with_file_name(b"x.conf".to_vec()).main_scan();
    let first = ms.next_candidate().unwrap();
    assert_eq!(first, b"/etc/x.conf".to_vec());
    ms.report(OpenOutcome::FailedFile);
    assert!(ms.next_candidate().is_none());
    assert!(!ms.is_complete());
}

#[test]
fn unexpected_failure_aborts_dropin_scan() {
    let mut ds = modern_roots().with_project(b"foo".to_vec()).dropin_scan(b".conf".to_vec());
    let first = ds.next_dir().unwrap();
    assert_eq!(first, b"/etc/foo.d".to_vec());
    ds.report_listing(ListOutcome::FailedDir);
    assert!(ds.next_dir().is_none());
    assert!(ds.next_open().is_none());
    assert!(!ds.is_complete());
}

#[test]
fn discovery_is_deterministic_over_equal_observations() {
    // Two runs over the same simulated filesystem yield identical paths.
    let fs = SimFs {
        dirs: vec![
            (b"/etc/foo.d".to_vec(), vec![b"b.conf".to_vec(), b"a.conf".to_vec()]),
            (b"/run/foo.d".to_vec(), vec![b"c.conf".to_vec()]),
        ],
        regular: vec![
            b"/etc/foo.d/a.conf".to_vec(),
            b"/etc/foo.d/b.conf".to_vec(),
            b"/run/foo.d/c.conf".to_vec(),
        ],
        nonregular: vec![],
    };
    let scoped = modern_roots().with_project(b"foo".to_vec());
    let (entries1, _) = run_dropins(scoped.dropin_scan(b".conf".to_vec()), &fs);
    let (entries2, _) = run_dropins(scoped.dropin_scan(b".conf".to_vec()), &fs);
    assert_eq!(paths_of(&entries1), paths_of(&entries2));
}

#[test]
fn search_directory_precedence() {
    // a.conf and a.conf.d/b.conf exist under foo in every root; whichever of
    // the three roots is included last (highest priority) supplies both.
    let fs = SimFs {
        dirs: vec![
            (b"/usr/etc/foo/a.conf.d".to_vec(), vec![b"b.conf".to_vec()]),
            (b"/run/foo/a.conf.d".to_vec(), vec![b"b.conf".to_vec()]),
            (b"/etc/foo/a.conf.d".to_vec(), vec![b"b.conf".to_vec()]),
        ],
        regular: vec![
            b"/usr/etc/foo/a.conf".to_vec(),
            b"/usr/etc/foo/a.conf.d/b.conf".to_vec(),
            b"/run/foo/a.conf".to_vec(),
            b"/run/foo/a.conf.d/b.conf".to_vec(),
            b"/etc/foo/a.conf".to_vec(),
            b"/etc/foo/a.conf.d/b.conf".to_vec(),
        ],
        nonregular: vec![],
    };
    for include_usr_etc in [false, true] {
        for include_run in [false, true] {
            for include_etc in [false, true] {
                let mut sd = SearchDirectories::empty();
                if include_usr_etc {
                    sd.push(b"/usr/etc".to_vec()).unwrap();
                }
                if include_run {
                    sd.push(b"/run".to_vec()).unwrap();
                }
                if include_etc {
                    sd.push(b"/etc".to_vec()).unwrap();
                }
                let scoped = sd
                    .with_project(b"foo".to_vec())
                    .with_file_name(b"a.conf".to_vec());
                let (main, _) = run_main(scoped.main_scan(), &fs);
                let (entries, _) = run_dropins(scoped.dropin_scan(b".conf".to_vec()), &fs);
                let mut files = Vec::new();
                files.extend(main);
                files.extend(paths_of(&entries));
                let expected: Vec<Vec<u8>> = if include_etc {
                    vec![b"/etc/foo/a.conf".to_vec(), b"/etc/foo/a.conf.d/b.conf".to_vec()]
                } else if include_run {
                    vec![b"/run/foo/a.conf".to_vec(), b"/run/foo/a.conf.d/b.conf".to_vec()]
                } else if include_usr_etc {
                    vec![
                        b"/usr/etc/foo/a.conf".to_vec(),
                        b"/usr/etc/foo/a.conf.d/b.conf".to_vec(),
                    ]
                } else {
                    vec![]
                };
                assert_eq!(files, expected);
            }
        }
    }
}

#[test]
fn only_project() {
    let fs = SimFs {
        dirs: vec![
            (b"/etc/foo.d".to_vec(), vec![b"a.conf".to_vec(), b"d.conf".to_vec()]),
            (b"/usr/etc/foo.d".to_vec(), vec![b"b.conf".to_vec(), b"f.conf".to_vec()]),
            (b"/run/foo.d".to_vec(), vec![b"c.conf".to_vec(), b"e.conf".to_vec()]),
        ],
        regular: vec![
            b"/etc/foo.d/a.conf".to_vec(),
            b"/usr/etc/foo.d/b.conf".to_vec(),
            b"/run/foo.d/c.conf".to_vec(),
            b"/etc/foo.d/d.conf".to_vec(),
            b"/run/foo.d/e.conf".to_vec(),
            b"/usr/etc/foo.d/f.conf".to_vec(),
        ],
        nonregular: vec![],
    };
    let scoped = SearchDirectories::modern_system().with_project(b"foo".to_vec());
    let (entries, _) = run_dropins(scoped.dropin_scan(b".conf".to_vec()), &fs);
    assert_eq!(
        paths_of(&entries),
        vec![
            b"/etc/foo.d/a.conf".to_vec(),
            b"/usr/etc/foo.d/b.conf".to_vec(),
            b"/run/foo.d/c.conf".to_vec(),
            b"/etc/foo.d/d.conf".to_vec(),
            b"/run/foo.d/e.conf".to_vec(),
            b"/usr/etc/foo.d/f.conf".to_vec(),
        ]
    );
}

#[test]
fn only_file_name() {
    let fs = SimFs {
        dirs: vec![
            (
                b"/etc/foo.service.d".to_vec(),
                vec![b"a.conf".to_vec(), b"d.conf".to_vec()],
            ),
            (
                b"/usr/etc/foo.service.d".to_vec(),
                vec![b"b.conf".to_vec(), b"f.conf".to_vec()],
            ),
            (
                b"/run/foo.service.d".to_vec(),
                vec![b"c.conf".to_vec(), b"e.conf".to_vec()],
            ),
        ],
        regular: vec![
            b"/etc/foo.service".to_vec(),
            b"/etc/foo.service.d/a.conf".to_vec(),
            b"/usr/etc/foo.service.d/b.conf".to_vec(),
            b"/run/foo.service.d/c.conf".to_vec(),
            b"/etc/foo.service.d/d.conf".to_vec(),
            b"/run/foo.service.d/e.conf".to_vec(),
            b"/usr/etc/foo.service.d/f.conf".to_vec(),
        ],
        nonregular: vec![],
    };
    let scoped = SearchDirectories::modern_system().with_file_name(b"foo.service".to_vec());
    let (main, _) = run_main(scoped.main_scan(), &fs);
    let (entries, _) = run_dropins(scoped.dropin_scan(b".conf".to_vec()), &fs);
    let mut files = Vec::new();
    files.extend(main);
    files.extend(paths_of(&entries));
    assert_eq!(
        files,
        vec![
            b"/etc/foo.service".to_vec(),
            b"/etc/foo.service.d/a.conf".to_vec(),
            b"/usr/etc/foo.service.d/b.conf".to_vec(),
            b"/run/foo.service.d/c.conf".to_vec(),
            b"/etc/foo.service.d/d.conf".to_vec(),
            b"/run/foo.service.d/e.conf".to_vec(),
            b"/usr/etc/foo.service.d/f.conf".to_vec(),
        ]
    );
}

#[test]
fn lost_between_listing_and_opening_is_skipped() {
    // The name shows up in the listing but the open reports it missing: the
    // entry is simply absent from the yield.
    let fs = SimFs {
        dirs: vec![(
            b"/etc/foo.d".to_vec(),
            vec![b"gone.conf".to_vec(), b"here.conf".to_vec()],
        )],
        regular: vec![b"/etc/foo.d/here.conf".to_vec()],
        nonregular: vec![],
    };
    let scoped = modern_roots().with_project(b"foo".to_vec());
    let (entries, _) = run_dropins(scoped.dropin_scan(b".conf".to_vec()), &fs);
    assert_eq!(paths_of(&entries), vec![b"/etc/foo.d/here.conf".to_vec()]);
}
