use mbbut::backup::{process_file, Action, BackupJob, JobError, Mode, Notice, Phase};
use mbbut::compression::decompress_file;
use mbbut::config::Config;
use mbbut::hashing::{hash_file, HashRegistry, LedgerFile};

/// A source tree held in memory: each regular file with its content.
struct Tree {
    files: Vec<(String, Vec<u8>)>,
}

impl Tree {
    fn new(files: &[(&str, &str)]) -> Tree {
        Tree { files: files.iter().map(|(p, c)| (p.to_string(), c.as_bytes().to_vec())).collect() }
    }

    fn paths(&self) -> Vec<String> {
        self.files.iter().map(|(p, _)| p.clone()).collect()
    }

    fn content(&self, path: &str) -> Option<&Vec<u8>> {
        self.files.iter().find(|(p, _)| p == path).map(|(_, c)| c)
    }
}

/// What one run left behind.
struct Report {
    dispatched: Vec<String>,
    announce: Option<Notice>,
    written: Vec<(String, Vec<u8>)>,
    saved: Option<(String, Vec<(String, String)>)>,
    notice: Option<Notice>,
    error: Option<JobError>,
}

/// Performs the actions of one run against `tree`. A file in `unreadable`
/// fails when it is transcoded; the ledger is written unless `disk_full`.
fn drive(
    job: &mut BackupJob,
    first: Result<Action, JobError>,
    tree: &Tree,
    unreadable: &[&str],
    disk_full: bool,
) -> Report {
    let mut report = Report {
        dispatched: vec![],
        announce: None,
        written: vec![],
        saved: None,
        notice: None,
        error: None,
    };
    let mut next = first;
    loop {
        let action = match next {
            Ok(action) => action,
            Err(error) => {
                report.error = Some(error);
                return report;
            }
        };
        next = match action {
            Action::Enumerate { source_root: _ } => job.enumerated(tree.paths()),
            Action::Dispatch { source_root, destination_root, candidates, announce } => {
                report.announce = announce;
                let mut outcomes = Vec::new();
                for candidate in &candidates {
                    let content = tree.content(candidate);
                    let readable = !unreadable.contains(&candidate.as_str());
                    let outcome = match (content, readable) {
                        (Some(content), true) => {
                            match process_file(candidate, &source_root, &destination_root, content)
                            {
                                Ok(artifact) => {
                                    report.written.push((artifact.destination, artifact.compressed));
                                    Some(artifact.hash)
                                }
                                Err(_) => None,
                            }
                        }
                        _ => None,
                    };
                    outcomes.push(outcome);
                }
                report.dispatched = candidates;
                job.process_files(outcomes)
            }
            Action::Persist { path, entries } => {
                if disk_full {
                    job.persisted(false)
                } else {
                    report.saved = Some((path, entries));
                    job.persisted(true)
                }
            }
            Action::Finish { notice } => {
                report.notice = Some(notice);
                return report;
            }
        };
    }
}

fn configured(source: &str, destination: &str, ledger: Option<&str>) -> Config {
    let mut config = Config::default();
    config.source_path = Some(source.to_string());
    config.destination_path = Some(destination.to_string());
    config.hash_file_path = ledger.map(|p| p.to_string());
    config
}

fn run_once(job: &mut BackupJob, tree: &Tree) -> Report {
    let first = job.run();
    drive(job, first, tree, &[], false)
}

fn written_paths(report: &Report) -> Vec<String> {
    report.written.iter().map(|(p, _)| p.clone()).collect()
}

fn resume_once(job: &mut BackupJob, tree: &Tree) -> Report {
    let first = job.resume();
    drive(job, first, tree, &[], false)
}

fn reloaded(report: &Report) -> HashRegistry {
    let (_, entries) = report.saved.clone().unwrap();
    HashRegistry::load_from_file(LedgerFile::Parsed(entries)).unwrap()
}

#[test]
fn run_backs_up_what_the_filter_lets_through() {
    let tree = Tree::new(&[("/src/a.txt", "hello"), ("/src/b.exe", "binary")]);
    let mut job = BackupJob::new(configured("/src", "/dst", Some("/ledger.json")), HashRegistry::new());

    let report = run_once(&mut job, &tree);

    assert_eq!(report.error, None);
    assert_eq!(report.dispatched, vec!["/src/a.txt".to_string()]);
    assert_eq!(written_paths(&report), vec!["/dst/a.txt.zst".to_string()]);
    assert_eq!(decompress_file(&report.written[0].1).unwrap(), b"hello".to_vec());
    assert_eq!(job.hash_registry.len(), 1);
    assert_eq!(job.hash_registry.get_hash("/src/a.txt"), Some(hash_file(b"hello")));
    assert!(!job.hash_registry.has_hash("/src/b.exe"));
    assert_eq!(report.announce, None);
    assert_eq!(report.notice, Some(Notice::BackupCompleted));
    let (path, entries) = report.saved.unwrap();
    assert_eq!(path, "/ledger.json");
    assert_eq!(entries, vec![("/src/a.txt".to_string(), hash_file(b"hello"))]);
}

#[test]
fn extensionless_file_gets_a_double_dot() {
    let tree = Tree::new(&[("/src/data", "x")]);
    let mut job = BackupJob::new(configured("/src", "/dst", Some("/ledger.json")), HashRegistry::new());

    let report = run_once(&mut job, &tree);

    assert_eq!(written_paths(&report), vec!["/dst/data..zst".to_string()]);
    assert_eq!(decompress_file(&report.written[0].1).unwrap(), b"x".to_vec());
}

#[test]
fn resume_takes_up_only_what_is_new() {
    let mut tree = Tree::new(&[("/src/a.txt", "hello")]);
    let mut job = BackupJob::new(configured("/src", "/dst", Some("/ledger.json")), HashRegistry::new());
    let first = run_once(&mut job, &tree);
    assert_eq!(written_paths(&first), vec!["/dst/a.txt.zst".to_string()]);

    tree.files.push(("/src/c.txt".to_string(), b"later".to_vec()));
    let mut next = BackupJob::new(configured("/src", "/dst", Some("/ledger.json")), reloaded(&first));
    let second = resume_once(&mut next, &tree);

    assert_eq!(second.error, None);
    assert_eq!(second.dispatched, vec!["/src/c.txt".to_string()]);
    assert_eq!(written_paths(&second), vec!["/dst/c.txt.zst".to_string()]);
    assert_eq!(second.announce, Some(Notice::Resuming(1)));
    assert_eq!(second.notice, Some(Notice::ResumeCompleted));
    assert_eq!(next.hash_registry.len(), 2);
    assert_eq!(next.hash_registry.get_hash("/src/a.txt"), Some(hash_file(b"hello")));
    assert_eq!(next.hash_registry.get_hash("/src/c.txt"), Some(hash_file(b"later")));
}

#[test]
fn resume_on_the_same_job_takes_up_only_what_is_new() {
    let mut tree = Tree::new(&[("/src/a.txt", "hello")]);
    let mut job = BackupJob::new(configured("/src", "/dst", None), HashRegistry::new());
    run_once(&mut job, &tree);
    assert_eq!(job.progress.current_phase(), Phase::Done);

    tree.files.push(("/src/c.txt".to_string(), b"later".to_vec()));
    let second = resume_once(&mut job, &tree);

    assert_eq!(second.dispatched, vec!["/src/c.txt".to_string()]);
    assert_eq!(job.hash_registry.len(), 2);
}

#[test]
fn empty_source_leaves_everything_as_it_was() {
    let mut ledger = HashRegistry::new();
    ledger.set_hash("/src/old.txt".to_string(), "old_hash".to_string());
    let mut job = BackupJob::new(configured("/src", "/dst", Some("/ledger.json")), ledger);

    let report = run_once(&mut job, &Tree::new(&[]));

    assert_eq!(report.error, None);
    assert_eq!(report.notice, Some(Notice::UpToDate));
    assert!(report.dispatched.is_empty());
    assert!(report.written.is_empty());
    assert!(report.saved.is_none());
    assert_eq!(job.hash_registry.len(), 1);
    assert_eq!(job.hash_registry.get_hash("/src/old.txt"), Some("old_hash".to_string()));
}

#[test]
fn empty_source_on_resume_is_already_complete() {
    let mut job = BackupJob::new(configured("/src", "/dst", Some("/ledger.json")), HashRegistry::new());
    let report = resume_once(&mut job, &Tree::new(&[]));
    assert_eq!(report.notice, Some(Notice::AlreadyComplete));
    assert!(report.saved.is_none());
}

#[test]
fn stale_entry_is_kept_as_it_is() {
    let mut ledger = HashRegistry::new();
    ledger.set_hash("/src/deleted.txt".to_string(), "stale_hash".to_string());
    let tree = Tree::new(&[("/src/a.txt", "hello")]);
    let mut job = BackupJob::new(configured("/src", "/dst", Some("/ledger.json")), ledger);

    let first = run_once(&mut job, &tree);
    assert_eq!(job.hash_registry.get_hash("/src/deleted.txt"), Some("stale_hash".to_string()));
    assert_eq!(job.hash_registry.len(), 2);

    let mut again = BackupJob::new(configured("/src", "/dst", Some("/ledger.json")), reloaded(&first));
    let second = run_once(&mut again, &tree);
    assert!(second.dispatched.is_empty());
    assert_eq!(again.hash_registry.get_hash("/src/deleted.txt"), Some("stale_hash".to_string()));
    assert_eq!(again.hash_registry.len(), 2);
}

#[test]
fn second_run_over_the_same_tree_does_nothing() {
    let tree = Tree::new(&[
        ("/src/a.txt", "one"),
        ("/src/sub/b.rs", "two"),
        ("/src/sub/deep/c", "three"),
        ("/src/target/out.bin", "skipped"),
    ]);
    let mut job = BackupJob::new(configured("/src", "/dst", Some("/ledger.json")), HashRegistry::new());
    let first = run_once(&mut job, &tree);
    assert_eq!(first.written.len(), 3);

    let second = run_once(&mut job, &tree);

    assert_eq!(second.error, None);
    assert!(second.dispatched.is_empty());
    assert!(second.written.is_empty());
    assert!(second.saved.is_none());
    assert_eq!(second.notice, Some(Notice::UpToDate));
    assert_eq!(job.hash_registry.len(), 3);
}

#[test]
fn every_included_file_is_covered_after_a_run() {
    let tree = Tree::new(&[
        ("/src/a.txt", "one"),
        ("/src/sub/b.rs", "two"),
        ("/src/sub/.hidden", "three"),
        ("/src/node_modules/x.js", "skipped"),
        ("/src/tool.dll", "skipped"),
    ]);
    let config = configured("/src", "/dst", None);
    let included: Vec<String> =
        tree.paths().into_iter().filter(|p| !config.is_blacklisted(p)).collect();
    let mut job = BackupJob::new(config, HashRegistry::new());

    let report = run_once(&mut job, &tree);

    assert_eq!(included.len(), 3);
    for path in &included {
        let content = tree.content(path).unwrap();
        assert_eq!(job.hash_registry.get_hash(path), Some(hash_file(content)));
        let destination =
            process_file(path, "/src", "/dst", content).unwrap().destination;
        assert!(written_paths(&report).contains(&destination));
    }
    assert_eq!(job.hash_registry.len(), included.len());
}

#[test]
fn excluded_files_leave_no_trace() {
    let tree = Tree::new(&[
        ("/src/ok.txt", "kept"),
        ("/src/node_modules/pkg/index.js", "a"),
        ("/src/deep/target/debug/app", "b"),
        ("/src/.git/HEAD", "c"),
        ("/src/dist", "d"),
        ("/src/lib/native.obj", "e"),
    ]);
    let mut job = BackupJob::new(configured("/src", "/dst", Some("/ledger.json")), HashRegistry::new());

    let report = run_once(&mut job, &tree);

    assert_eq!(report.dispatched, vec!["/src/ok.txt".to_string()]);
    assert_eq!(written_paths(&report), vec!["/dst/ok.txt.zst".to_string()]);
    assert_eq!(job.hash_registry.len(), 1);
    for (path, _) in &tree.files[1..] {
        assert!(job.config.is_blacklisted(path));
        assert!(!job.hash_registry.has_hash(path));
    }
}

#[test]
fn one_failure_leaves_the_others_recorded() {
    let tree = Tree::new(&[("/src/a.txt", "one"), ("/src/b.txt", "two"), ("/src/c.txt", "three")]);
    let mut job = BackupJob::new(configured("/src", "/dst", Some("/ledger.json")), HashRegistry::new());

    let first = job.run();
    let report = drive(&mut job, first, &tree, &["/src/b.txt"], false);

    assert_eq!(report.error, None);
    assert_eq!(report.notice, Some(Notice::BackupCompleted));
    assert_eq!(job.hash_registry.len(), 2);
    assert_eq!(job.hash_registry.get_hash("/src/a.txt"), Some(hash_file(b"one")));
    assert_eq!(job.hash_registry.get_hash("/src/c.txt"), Some(hash_file(b"three")));
    assert!(!job.hash_registry.has_hash("/src/b.txt"));
    assert_eq!(report.saved.unwrap().1.len(), 2);

    // the failed file is offered again on the next run
    let again = run_once(&mut job, &tree);
    assert_eq!(again.dispatched, vec!["/src/b.txt".to_string()]);
    assert_eq!(job.hash_registry.len(), 3);
}

#[test]
fn n_files_give_n_entries() {
    for count in [1usize, 2, 8, 50] {
        let files: Vec<(String, String)> =
            (0..count).map(|i| (format!("/src/dir{}/file{}.txt", i % 3, i), format!("content {}", i))).collect();
        let borrowed: Vec<(&str, &str)> =
            files.iter().map(|(p, c)| (p.as_str(), c.as_str())).collect();
        let tree = Tree::new(&borrowed);
        let mut job = BackupJob::new(configured("/src", "/dst", None), HashRegistry::new());

        let report = run_once(&mut job, &tree);

        assert_eq!(report.dispatched.len(), count);
        assert_eq!(job.hash_registry.len(), count);
        let mut keys: Vec<String> =
            job.hash_registry.entries().into_iter().map(|(p, _)| p).collect();
        keys.sort();
        keys.dedup();
        assert_eq!(keys.len(), count);
    }
}

#[test]
fn outcomes_in_another_order_leave_the_same_ledger() {
    let paths = vec!["/src/a".to_string(), "/src/b".to_string(), "/src/c".to_string()];
    let hashes = vec![Some("ha".to_string()), None, Some("hc".to_string())];
    let order = [2usize, 0, 1];

    let mut one = BackupJob::new(configured("/src", "/dst", None), HashRegistry::new());
    one.run().unwrap();
    one.enumerated(paths.clone()).unwrap();
    one.process_files(hashes.clone()).unwrap();

    let mut other = BackupJob::new(configured("/src", "/dst", None), HashRegistry::new());
    other.run().unwrap();
    other.enumerated(order.iter().map(|&i| paths[i].clone()).collect()).unwrap();
    other.process_files(order.iter().map(|&i| hashes[i].clone()).collect()).unwrap();

    let mut left = one.hash_registry.entries();
    let mut right = other.hash_registry.entries();
    left.sort();
    right.sort();
    assert_eq!(left, right);
    assert_eq!(left, vec![("/src/a".to_string(), "ha".to_string()), ("/src/c".to_string(), "hc".to_string())]);
}

#[test]
fn run_without_a_ledger_path_never_persists() {
    let tree = Tree::new(&[("/src/a.txt", "hello")]);
    let mut job = BackupJob::new(configured("/src", "/dst", None), HashRegistry::new());
    let report = run_once(&mut job, &tree);
    assert!(report.saved.is_none());
    assert_eq!(report.notice, Some(Notice::BackupCompleted));
    assert_eq!(job.progress.current_phase(), Phase::Done);
    assert_eq!(job.hash_registry.len(), 1);
}

#[test]
fn ledger_that_cannot_be_written_is_an_error() {
    let tree = Tree::new(&[("/src/a.txt", "hello")]);
    let mut job = BackupJob::new(configured("/src", "/dst", Some("/ledger.json")), HashRegistry::new());
    let first = job.run();
    let report = drive(&mut job, first, &tree, &[], true);
    assert_eq!(report.error, Some(JobError::LedgerNotSaved));
    assert_eq!(written_paths(&report), vec!["/dst/a.txt.zst".to_string()]);
    assert_eq!(job.progress.current_phase(), Phase::Done);
    assert_eq!(job.hash_registry.len(), 1);
}

#[test]
fn missing_roots_are_refused_before_anything_is_done() {
    let mut no_source = Config::default();
    no_source.destination_path = Some("/dst".to_string());
    let mut job = BackupJob::new(no_source, HashRegistry::new());
    assert_eq!(job.run().unwrap_err(), JobError::SourceNotSet);
    assert_eq!(job.resume().unwrap_err(), JobError::SourceNotSet);
    assert_eq!(job.progress.current_phase(), Phase::Idle);

    let mut no_destination = Config::default();
    no_destination.source_path = Some("/src".to_string());
    let mut job = BackupJob::new(no_destination, HashRegistry::new());
    assert_eq!(job.run().unwrap_err(), JobError::DestinationNotSet);
    assert_eq!(job.progress.current_phase(), Phase::Idle);

    let mut job = BackupJob::new(Config::default(), HashRegistry::new());
    assert_eq!(job.run().unwrap_err(), JobError::SourceNotSet);
}

#[test]
fn steps_out_of_turn_are_refused_and_change_nothing() {
    let mut job = BackupJob::new(configured("/src", "/dst", Some("/l.json")), HashRegistry::new());
    assert_eq!(job.enumerated(vec!["/src/a".to_string()]).unwrap_err(), JobError::OutOfTurn);
    assert_eq!(job.process_files(vec![Some("h".to_string())]).unwrap_err(), JobError::OutOfTurn);
    assert_eq!(job.persisted(true).unwrap_err(), JobError::OutOfTurn);
    assert_eq!(job.progress.current_phase(), Phase::Idle);
    assert_eq!(job.hash_registry.len(), 0);

    assert!(matches!(job.run(), Ok(Action::Enumerate { .. })));
    assert_eq!(job.progress.current_phase(), Phase::Enumerating);
    assert_eq!(job.run().unwrap_err(), JobError::OutOfTurn);
    assert_eq!(job.process_files(vec![]).unwrap_err(), JobError::OutOfTurn);
    assert_eq!(job.progress.current_phase(), Phase::Enumerating);

    assert!(matches!(job.enumerated(vec!["/src/a".to_string()]), Ok(Action::Dispatch { .. })));
    assert_eq!(job.progress.current_phase(), Phase::Processing);
    assert_eq!(job.enumerated(vec![]).unwrap_err(), JobError::OutOfTurn);
    assert_eq!(job.persisted(true).unwrap_err(), JobError::OutOfTurn);

    assert!(matches!(job.process_files(vec![Some("h".to_string())]), Ok(Action::Persist { .. })));
    assert_eq!(job.progress.current_phase(), Phase::Persisting);
    assert_eq!(job.resume().unwrap_err(), JobError::OutOfTurn);

    assert!(matches!(
        job.persisted(true),
        Ok(Action::Finish { notice: Notice::BackupCompleted })
    ));
    assert_eq!(job.progress.current_phase(), Phase::Done);
}

#[test]
fn enumerate_names_the_source_root() {
    let mut job = BackupJob::new(configured("/data/src", "/dst", None), HashRegistry::new());
    match job.run().unwrap() {
        Action::Enumerate { source_root } => assert_eq!(source_root, "/data/src"),
        _ => panic!("expected to enumerate"),
    }
}

#[test]
fn dispatch_names_roots_and_candidates_in_order() {
    let mut job = BackupJob::new(configured("/src", "/dst", None), HashRegistry::new());
    job.hash_registry.set_hash("/src/done.txt".to_string(), "h".to_string());
    job.resume().unwrap();
    let files = vec![
        "/src/z.txt".to_string(),
        "/src/done.txt".to_string(),
        "/src/a.exe".to_string(),
        "/src/a.txt".to_string(),
    ];
    assert_eq!(
        job.collect_files_to_process(&files),
        vec!["/src/z.txt".to_string(), "/src/a.txt".to_string()]
    );
    match job.enumerated(files).unwrap() {
        Action::Dispatch { source_root, destination_root, candidates, announce } => {
            assert_eq!(source_root, "/src");
            assert_eq!(destination_root, "/dst");
            assert_eq!(candidates, vec!["/src/z.txt".to_string(), "/src/a.txt".to_string()]);
            assert_eq!(announce, Some(Notice::Resuming(2)));
        }
        _ => panic!("expected a dispatch"),
    }
}

#[test]
fn outcomes_are_matched_to_candidates_by_position() {
    let files = vec!["/src/a".to_string(), "/src/b".to_string(), "/src/c".to_string()];

    // fewer outcomes than candidates: the rest count as failed
    let mut job = BackupJob::new(configured("/src", "/dst", None), HashRegistry::new());
    job.run().unwrap();
    job.enumerated(files.clone()).unwrap();
    job.process_files(vec![Some("ha".to_string())]).unwrap();
    assert_eq!(job.hash_registry.entries(), vec![("/src/a".to_string(), "ha".to_string())]);

    // more outcomes than candidates: the surplus is ignored
    let mut job = BackupJob::new(configured("/src", "/dst", None), HashRegistry::new());
    job.run().unwrap();
    job.enumerated(files).unwrap();
    let surplus = vec![None, Some("hb".to_string()), None, Some("hd".to_string())];
    job.process_files(surplus).unwrap();
    assert_eq!(job.hash_registry.entries(), vec![("/src/b".to_string(), "hb".to_string())]);
}

#[test]
fn modes_are_distinct() {
    assert_ne!(Mode::Run, Mode::Resume);
}
