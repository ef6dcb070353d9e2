use index_sync::git_import::{
    completed, edit_of, import_data, import_file, qualifies, resolved, run, Edit, FileError,
    FileReport, ImportError, IndexFile, Line, Observation, Opts, Update,
};
use index_sync::record::Crate;
use index_sync::versions::{Lookup, Version, Versions};

fn record(name: &str, vers: &str, links: Option<&str>) -> Crate {
    Crate {
        name: name.to_string(),
        vers: vers.to_string(),
        deps: Vec::new(),
        cksum: "00".to_string(),
        features: Vec::new(),
        features2: None,
        yanked: Some(false),
        links: links.map(|l| l.to_string()),
        v: None,
    }
}

fn version(id: i32, name: &str, num: &str, links: Option<&str>) -> Version {
    Version {
        id,
        crate_name: name.to_string(),
        num: num.to_string(),
        links: links.map(|l| l.to_string()),
    }
}

fn table(rows: Vec<Version>) -> Versions {
    let mut t = Versions::new();
    for row in rows {
        assert!(t.insert(row));
    }
    t
}

fn links_of(t: &Versions, id: i32) -> Option<String> {
    t.rows().iter().find(|r| r.id == id).unwrap().links.clone()
}

fn edit(rows: usize, name: &str, vers: &str) -> Edit {
    Edit { rows, name: name.to_string(), vers: vers.to_string() }
}

#[test]
fn import_fills_missing_links() {
    let mut t = table(vec![version(1, "git2", "0.1.0", None), version(2, "git2", "0.2.0", None)]);
    let r = import_data(&mut t, &record("git2", "0.2.0", Some("git2")));
    assert_eq!(r, Ok(1));
    assert_eq!(links_of(&t, 1), None);
    assert_eq!(links_of(&t, 2), Some("git2".to_string()));
}

#[test]
fn import_twice_changes_nothing_the_second_time() {
    let mut t = table(vec![version(7, "openssl-sys", "0.9.0", None)]);
    let k = record("openssl-sys", "0.9.0", Some("openssl"));
    assert_eq!(import_data(&mut t, &k), Ok(1));
    let after_first = t.rows().clone();
    assert_eq!(import_data(&mut t, &k), Ok(0));
    assert_eq!(t.rows(), &after_first);
}

#[test]
fn import_never_overwrites_links() {
    let mut t = table(vec![version(3, "zlib", "1.0.0", Some("z"))]);
    let r = import_data(&mut t, &record("zlib", "1.0.0", Some("other")));
    assert_eq!(r, Ok(0));
    assert_eq!(links_of(&t, 3), Some("z".to_string()));
}

#[test]
fn import_of_an_unknown_version_is_not_found() {
    let mut t = table(vec![version(3, "zlib", "1.0.0", None)]);
    let r = import_data(&mut t, &record("zlib", "2.0.0", Some("z")));
    assert_eq!(
        r,
        Err(ImportError::NotFound { name: "zlib".to_string(), vers: "2.0.0".to_string() })
    );
    assert_eq!(links_of(&t, 3), None);
}

#[test]
fn import_matches_name_and_version_together() {
    let mut t = table(vec![
        version(1, "a", "1.0.0", None),
        version(2, "b", "1.0.0", None),
        version(3, "b", "2.0.0", None),
    ]);
    assert_eq!(import_data(&mut t, &record("b", "1.0.0", Some("b"))), Ok(1));
    assert_eq!(links_of(&t, 1), None);
    assert_eq!(links_of(&t, 2), Some("b".to_string()));
    assert_eq!(links_of(&t, 3), None);
}

#[test]
fn lookup_answers_become_ids_or_errors() {
    let k = record("curl", "0.4.0", Some("curl"));
    assert_eq!(resolved(&k, Lookup::Found(12)), Ok(12));
    assert_eq!(
        resolved(&k, Lookup::Missing),
        Err(ImportError::NotFound { name: "curl".to_string(), vers: "0.4.0".to_string() })
    );
    assert_eq!(
        resolved(&k, Lookup::Failed("connection reset".to_string())),
        Err(ImportError::LookupFailed {
            name: "curl".to_string(),
            vers: "0.4.0".to_string(),
            cause: "connection reset".to_string(),
        })
    );
}

#[test]
fn update_answers_become_counts_or_errors() {
    let k = record("curl", "0.4.0", Some("curl"));
    assert_eq!(completed(&k, 12, Update::Changed(1)), Ok(1));
    assert_eq!(completed(&k, 12, Update::Changed(0)), Ok(0));
    assert_eq!(
        completed(&k, 12, Update::Failed("deadlock".to_string())),
        Err(ImportError::UpdateFailed {
            name: "curl".to_string(),
            vers: "0.4.0".to_string(),
            version_id: 12,
            cause: "deadlock".to_string(),
        })
    );
}

#[test]
fn file_import_reports_edits_in_line_order() {
    let mut t = table(vec![
        version(1, "a", "1.0.0", None),
        version(2, "a", "1.1.0", Some("a")),
        version(3, "a", "1.2.0", None),
    ]);
    let lines = vec![
        Line::Record(record("a", "1.0.0", Some("a"))),
        Line::Record(record("a", "1.1.0", Some("a"))),
        Line::Record(record("a", "1.2.0", Some("a"))),
    ];
    let report = import_file(&mut t, &lines);
    assert_eq!(
        report,
        FileReport { edits: vec![edit(1, "a", "1.0.0"), edit(1, "a", "1.2.0")], failure: None }
    );
    assert_eq!(links_of(&t, 1), Some("a".to_string()));
    assert_eq!(links_of(&t, 3), Some("a".to_string()));
}

#[test]
fn records_without_links_are_not_even_looked_up() {
    let mut t = table(vec![version(1, "a", "1.0.0", None)]);
    let lines = vec![
        Line::Record(record("nowhere", "9.9.9", None)),
        Line::Record(record("a", "1.0.0", None)),
    ];
    let report = import_file(&mut t, &lines);
    assert_eq!(report, FileReport { edits: vec![], failure: None });
    assert_eq!(links_of(&t, 1), None);
}

#[test]
fn unreadable_line_fails_the_file() {
    let mut t = table(vec![version(1, "a", "1.0.0", None)]);
    let lines = vec![
        Line::Record(record("a", "1.0.0", Some("a"))),
        Line::Unreadable("stream did not contain valid UTF-8".to_string()),
    ];
    let report = import_file(&mut t, &lines);
    assert_eq!(
        report.failure,
        Some(FileError::Read("stream did not contain valid UTF-8".to_string()))
    );
    assert_eq!(report.edits, vec![edit(1, "a", "1.0.0")]);
    assert_eq!(links_of(&t, 1), None);
}

#[test]
fn transaction_atomicity_scenario() {
    // two qualifying records; the second one fails: the first is undone
    let mut t = table(vec![version(1, "a", "1.0.0", None)]);
    let lines = vec![
        Line::Record(record("a", "1.0.0", Some("a"))),
        Line::Record(record("a", "2.0.0", Some("a"))),
    ];
    let report = import_file(&mut t, &lines);
    assert_eq!(
        report.failure,
        Some(FileError::Update {
            name: "a".to_string(),
            vers: "2.0.0".to_string(),
            source: ImportError::NotFound { name: "a".to_string(), vers: "2.0.0".to_string() },
        })
    );
    assert_eq!(links_of(&t, 1), None);
    assert_eq!(t.rows(), &vec![version(1, "a", "1.0.0", None)]);
}

#[test]
fn lines_after_a_failure_are_not_looked_at() {
    let mut t = table(vec![version(1, "a", "1.0.0", None), version(2, "a", "1.1.0", None)]);
    let lines = vec![
        Line::Malformed("expected value at line 1 column 1".to_string()),
        Line::Record(record("a", "1.1.0", Some("a"))),
    ];
    let report = import_file(&mut t, &lines);
    assert_eq!(report.edits, vec![]);
    assert_eq!(
        report.failure,
        Some(FileError::Parse("expected value at line 1 column 1".to_string()))
    );
    assert_eq!(links_of(&t, 2), None);
}

#[test]
fn fault_isolation_scenario() {
    // three files; the second holds one line that is no record
    let mut t = table(vec![
        version(1, "a", "1.0.0", None),
        version(2, "b", "1.0.0", None),
        version(3, "c", "1.0.0", None),
    ]);
    let files = vec![
        IndexFile {
            path: "1/a".to_string(),
            lines: Some(vec![Line::Record(record("a", "1.0.0", Some("a")))]),
        },
        IndexFile {
            path: "1/b".to_string(),
            lines: Some(vec![
                Line::Record(record("b", "1.0.0", Some("b"))),
                Line::Malformed("expected `,` or `}` at line 1 column 9".to_string()),
            ]),
        },
        IndexFile {
            path: "1/c".to_string(),
            lines: Some(vec![Line::Record(record("c", "1.0.0", Some("c")))]),
        },
    ];
    let log = run(Opts { delay: 5 }, &mut t, &files, true);
    assert_eq!(
        log,
        vec![
            Observation::Found { files: 3 },
            Observation::Paused { millis: 5 },
            Observation::Edited(edit(1, "a", "1.0.0")),
            Observation::Paused { millis: 5 },
            Observation::Edited(edit(1, "b", "1.0.0")),
            Observation::Failed {
                path: "1/b".to_string(),
                error: FileError::Parse("expected `,` or `}` at line 1 column 9".to_string()),
            },
            Observation::Paused { millis: 5 },
            Observation::Edited(edit(1, "c", "1.0.0")),
            Observation::Completed,
        ]
    );
    assert_eq!(links_of(&t, 1), Some("a".to_string()));
    assert_eq!(links_of(&t, 2), None);
    assert_eq!(links_of(&t, 3), Some("c".to_string()));
}

#[test]
fn declined_run_is_a_noop() {
    let mut t = table(vec![version(1, "a", "1.0.0", None)]);
    let files = vec![IndexFile {
        path: "1/a".to_string(),
        lines: Some(vec![Line::Record(record("a", "1.0.0", Some("a")))]),
    }];
    let log = run(Opts { delay: 0 }, &mut t, &files, false);
    assert_eq!(log, vec![Observation::Found { files: 1 }]);
    assert_eq!(links_of(&t, 1), None);
}

#[test]
fn run_skips_a_file_that_is_not_there() {
    let mut t = table(vec![version(1, "a", "1.0.0", None)]);
    let files = vec![
        IndexFile { path: "3/g/gone".to_string(), lines: None },
        IndexFile {
            path: "1/a".to_string(),
            lines: Some(vec![Line::Record(record("a", "1.0.0", Some("a")))]),
        },
    ];
    let log = run(Opts { delay: 250 }, &mut t, &files, true);
    assert_eq!(
        log,
        vec![
            Observation::Found { files: 2 },
            Observation::Paused { millis: 250 },
            Observation::Skipped { path: "3/g/gone".to_string() },
            Observation::Paused { millis: 250 },
            Observation::Edited(edit(1, "a", "1.0.0")),
            Observation::Completed,
        ]
    );
}

#[test]
fn run_over_no_files_completes() {
    let mut t = Versions::new();
    let log = run(Opts { delay: 1 }, &mut t, &vec![], true);
    assert_eq!(log, vec![Observation::Found { files: 0 }, Observation::Completed]);
}

#[test]
fn rerun_of_a_whole_batch_edits_nothing() {
    let mut t = table(vec![version(1, "a", "1.0.0", None), version(2, "a", "1.1.0", None)]);
    let files = vec![IndexFile {
        path: "1/a".to_string(),
        lines: Some(vec![
            Line::Record(record("a", "1.0.0", Some("a"))),
            Line::Record(record("a", "1.1.0", Some("a"))),
        ]),
    }];
    let first = run(Opts { delay: 0 }, &mut t, &files, true);
    assert_eq!(first.len(), 5);
    let second = run(Opts { delay: 0 }, &mut t, &files, true);
    assert_eq!(
        second,
        vec![
            Observation::Found { files: 1 },
            Observation::Paused { millis: 0 },
            Observation::Completed
        ]
    );
}

#[test]
fn file_written_from_the_table_brings_no_update() {
    // the records say of each version what the table says
    let rows =
        vec![version(1, "a", "1.0.0", Some("a")), version(2, "a", "1.1.0", None)];
    let mut t = table(rows.clone());
    let lines = vec![
        Line::Record(record("a", "1.0.0", Some("a"))),
        Line::Record(record("a", "1.1.0", None)),
    ];
    let report = import_file(&mut t, &lines);
    assert_eq!(report, FileReport { edits: vec![], failure: None });
    assert_eq!(t.rows(), &rows);
}

#[test]
fn table_refuses_a_second_row_for_an_id_or_a_version() {
    let mut t = Versions::new();
    assert!(t.insert(version(1, "a", "1.0.0", None)));
    assert!(!t.insert(version(1, "b", "1.0.0", None)));
    assert!(!t.insert(version(2, "a", "1.0.0", None)));
    assert!(t.insert(version(2, "a", "1.0.1", None)));
    assert_eq!(t.len(), 2);
    assert_eq!(t.lookup(&"a".to_string(), &"1.0.1".to_string()), Lookup::Found(2));
    assert_eq!(t.lookup(&"a".to_string(), &"3.0.0".to_string()), Lookup::Missing);
}

#[test]
fn conditional_update_counts_changed_rows() {
    let mut t = table(vec![version(1, "a", "1.0.0", None), version(2, "a", "1.1.0", Some("x"))]);
    assert_eq!(t.fill_links(2, &Some("y".to_string())), 0);
    assert_eq!(t.fill_links(9, &Some("y".to_string())), 0);
    assert_eq!(t.fill_links(1, &Some("y".to_string())), 1);
    assert_eq!(t.fill_links(1, &Some("z".to_string())), 0);
    assert_eq!(links_of(&t, 1), Some("y".to_string()));
    assert_eq!(links_of(&t, 2), Some("x".to_string()));
    let copy = t.snapshot();
    assert_eq!(copy.rows(), t.rows());
}

#[test]
fn only_records_with_links_qualify() {
    assert!(qualifies(&record("a", "1.0.0", Some("a"))));
    assert!(qualifies(&record("a", "1.0.0", Some(""))));
    assert!(!qualifies(&record("a", "1.0.0", None)));
}

#[test]
fn only_changed_rows_are_reported() {
    let k = record("a", "1.0.0", Some("a"));
    assert_eq!(edit_of(&k, 0), None);
    assert_eq!(edit_of(&k, 1), Some(edit(1, "a", "1.0.0")));
    assert_eq!(edit_of(&k, 3), Some(edit(3, "a", "1.0.0")));
}

#[test]
fn import_of_a_record_without_links_keeps_the_table() {
    // the conditional update then sets nothing where nothing is set
    let mut t = table(vec![version(1, "a", "1.0.0", None), version(2, "a", "1.1.0", Some("a"))]);
    assert_eq!(import_data(&mut t, &record("a", "1.0.0", None)), Ok(1));
    assert_eq!(import_data(&mut t, &record("a", "1.1.0", None)), Ok(0));
    assert_eq!(links_of(&t, 1), None);
    assert_eq!(links_of(&t, 2), Some("a".to_string()));
}
