use mbbut::backup::{
    assemble_artifact, process_file, Action, BackupJob, FileError, JobError, Notice, Phase,
};
use mbbut::compression::{decompress_file, CodecError};
use mbbut::config::Config;
use mbbut::hashing::{hash_file, HashRegistry};

/// A source tree held in memory: each regular file with its content.
struct Tree {
    files: Vec<(String, Vec<u8>)>,
}

impl Tree {
    fn new(files: &[(&str, &str)]) -> Tree {
        Tree { files: files.iter().map(|(p, c)| (p.to_string(), c.as_bytes().to_vec())).collect() }
    }

    fn paths(&self) -> Vec<String> {
        self.files.iter().map(|(p, _)| p.clone()).collect()
    }

    fn content(&self, path: &str) -> Option<&Vec<u8>> {
        self.files.iter().find(|(p, _)| p == path).map(|(_, c)| c)
    }
}

/// What one run left behind.
struct Report {
    dispatched: Vec<String>,
    announce: Option<Notice>,
    written: Vec<(String, Vec<u8>)>,
    saved: Option<(String, Vec<(String, String)>)>,
    notice: Option<Notice>,
    error: Option<JobError>,
}

/// Performs the actions of one run against `tree`. A file in `unreadable`
/// fails when it is transcoded; the ledger is written unless `disk_full`.
fn drive(
    job: &mut BackupJob,
    first: Result<Action, JobError>,
    tree: &Tree,
    unreadable: &[&str],
    disk_full: bool,
) -> Report {
    let mut report = Report {
        dispatched: vec![],
        announce: None,
        written: vec![],
        saved: None,
        notice: None,
        error: None,
    };
    let mut next = first;
    loop {
        let action = match next {
            Ok(action) => action,
            Err(error) => {
                report.error = Some(error);
                return report;
            }
        };
        next = match action {
            Action::Enumerate { source_root: _ } => job.enumerated(tree.paths()),
            Action::Dispatch { source_root, destination_root, candidates, announce } => {
                report.announce = announce;
                let mut outcomes = Vec::new();
                for candidate in &candidates {
                    let content = tree.content(candidate);
                    let readable = !unreadable.contains(&candidate.as_str());
                    let outcome = match (content, readable) {
                        (Some(content), true) => {
                            match process_file(candidate, &source_root, &destination_root, content)
                            {
                                Ok(artifact) => {
                                    report.written.push((artifact.destination, artifact.compressed));
                                    Some(artifact.hash)
                                }
                                Err(_) => None,
                            }
                        }
                        _ => None,
                    };
                    outcomes.push(outcome);
                }
                report.dispatched = candidates;
                job.process_files(outcomes)
            }
            Action::Persist { path, entries } => {
                if disk_full {
                    job.persisted(false)
                } else {
                    report.saved = Some((path, entries));
                    job.persisted(true)
                }
            }
            Action::Finish { notice } => {
                report.notice = Some(notice);
                return report;
            }
        };
    }
}

fn configured(source: &str, destination: &str, ledger: Option<&str>) -> Config {
    let mut config = Config::default();
    config.source_path = Some(source.to_string());
    config.destination_path = Some(destination.to_string());
    config.hash_file_path = ledger.map(|p| p.to_string());
    config
}

fn run_once(job: &mut BackupJob, tree: &Tree) -> Report {
    let first = job.run();
    drive(job, first, tree, &[], false)
}

fn written_paths(report: &Report) -> Vec<String> {
    report.written.iter().map(|(p, _)| p.clone()).collect()
}

#[test]
fn test_backup_job_new() {
    // Create a config and hash registry
    let config = Config::default();
    let hash_registry = HashRegistry::new();

    // Create a new backup job
    let backup_job = BackupJob::new(config, hash_registry);

    // Verify default values
    assert_eq!(backup_job.hash_registry.len(), 0);
    assert!(backup_job.config.source_path.is_none());
    assert!(backup_job.config.destination_path.is_none());
    assert!(backup_job.config.hash_file_path.is_none());
    assert_eq!(backup_job.progress.current_phase(), Phase::Idle);
}

#[test]
fn test_process_file() {
    let content = "Test content for processing";
    let test_file_path = "/src/subdir/test.txt";

    // Process the file
    let artifact = process_file(test_file_path, "/src", "/dst", content.as_bytes()).unwrap();

    // Verify the hash is correct
    let expected_hash = hash_file(content.as_bytes());
    assert_eq!(artifact.hash, expected_hash);

    // Verify the destination has the correct path structure
    assert_eq!(artifact.destination, "/dst/subdir/test.txt.zst");

    // Verify the file can be decompressed
    let decompressed = decompress_file(&artifact.compressed).unwrap();
    assert_eq!(String::from_utf8(decompressed).unwrap(), content);
}

#[test]
fn test_process_file_no_extension() {
    let artifact =
        process_file("/src/noextension", "/src", "/dst", b"No extension test").unwrap();

    // A dot and then .zst are added, so a file with no extension gives
    // "noextension..zst" (with double dot)
    assert_eq!(artifact.destination, "/dst/noextension..zst");
    assert_eq!(decompress_file(&artifact.compressed).unwrap(), b"No extension test".to_vec());
}

#[test]
fn process_file_outside_the_root_is_a_path_error() {
    let result = process_file("/elsewhere/a.txt", "/src", "/dst", b"content");
    assert!(matches!(result, Err(FileError::NotUnderRoot)));
}

#[test]
fn process_file_of_an_empty_file() {
    let artifact = process_file("/src/empty", "/src", "/dst", &[]).unwrap();
    assert_eq!(artifact.destination, "/dst/empty..zst");
    assert_eq!(artifact.hash, "af1349b9f5f9a1a6a0404dea36dcc9499bcb25c9adc112b7cc9a93cae41f3262");
    assert!(artifact.compressed.len() > 0);
    assert_eq!(decompress_file(&artifact.compressed).unwrap(), Vec::<u8>::new());
}

#[test]
fn assemble_artifact_by_cases() {
    let none = assemble_artifact(None, Ok(vec![1]), "h".to_string());
    assert!(matches!(none, Err(FileError::NotUnderRoot)));
    let none_and_failed = assemble_artifact(
        None,
        Err(CodecError { message: "bad".to_string() }),
        "h".to_string(),
    );
    assert!(matches!(none_and_failed, Err(FileError::NotUnderRoot)));
    let failed = assemble_artifact(
        Some("/dst/a.zst".to_string()),
        Err(CodecError { message: "bad".to_string() }),
        "h".to_string(),
    );
    match failed {
        Err(FileError::Codec(error)) => assert_eq!(error.message, "bad"),
        _ => panic!("expected a codec error"),
    }
    let made =
        assemble_artifact(Some("/dst/a.zst".to_string()), Ok(vec![1, 2]), "h".to_string()).unwrap();
    assert_eq!(made.destination, "/dst/a.zst");
    assert_eq!(made.compressed, vec![1, 2]);
    assert_eq!(made.hash, "h");
}

#[test]
fn test_backup_job_run_empty_dirs() {
    let config = configured("/tmp/source", "/tmp/destination", Some("/tmp/hashes.json"));
    let hash_registry = HashRegistry::new();
    let mut backup_job = BackupJob::new(config, hash_registry);

    // Run the backup job (should succeed with no files)
    let result = backup_job.run();
    assert!(result.is_ok());

    let report = drive(&mut backup_job, result, &Tree::new(&[]), &[], false);
    assert_eq!(report.error, None);
    assert_eq!(report.notice, Some(Notice::UpToDate));
    assert!(report.dispatched.is_empty());
    assert!(report.written.is_empty());
    assert!(report.saved.is_none());
    assert_eq!(backup_job.hash_registry.len(), 0);
    assert_eq!(backup_job.progress.current_phase(), Phase::Done);
}

#[test]
fn test_backup_job_run_with_files() {
    let tree = Tree::new(&[
        ("/tmp/source/test.txt", "Test content"),
        ("/tmp/source/test.exe", "Blacklisted content"),
    ]);
    let config = configured("/tmp/source", "/tmp/destination", Some("/tmp/hashes.json"));
    let mut backup_job = BackupJob::new(config, HashRegistry::new());

    // Run the backup job
    let report = run_once(&mut backup_job, &tree);
    assert_eq!(report.error, None);

    // Verify the txt file was backed up and the exe file was skipped
    let written = written_paths(&report);
    assert!(written.contains(&"/tmp/destination/test.txt.zst".to_string()));
    assert!(!written.contains(&"/tmp/destination/test.exe.zst".to_string()));

    // Verify hash registry contains only the txt file
    assert_eq!(backup_job.hash_registry.len(), 1);
    assert!(backup_job.hash_registry.has_hash("/tmp/source/test.txt"));
    assert!(!backup_job.hash_registry.has_hash("/tmp/source/test.exe"));
}

#[test]
fn test_backup_job_run_with_blacklist() {
    let tree = Tree::new(&[
        ("/tmp/source/regular_dir/file.txt", "Regular file"),
        ("/tmp/source/node_modules/package.json", "Blacklisted directory file"),
    ]);
    let config = configured("/tmp/source", "/tmp/destination", Some("/tmp/hashes.json"));
    let mut backup_job = BackupJob::new(config, HashRegistry::new());

    let report = run_once(&mut backup_job, &tree);
    assert_eq!(report.error, None);

    // Verify only the regular file was backed up
    let written = written_paths(&report);
    assert!(written.contains(&"/tmp/destination/regular_dir/file.txt.zst".to_string()));
    assert!(!written.contains(&"/tmp/destination/node_modules/package.json.zst".to_string()));
    assert_eq!(written.len(), 1);
}

#[test]
fn test_backup_job_skips_processed_files() {
    let tree = Tree::new(&[("/tmp/source/test.txt", "Test content")]);
    let config = configured("/tmp/source", "/tmp/destination", Some("/tmp/hashes.json"));

    // Create hash registry with the test file already marked as processed
    let mut hash_registry = HashRegistry::new();
    hash_registry.set_hash("/tmp/source/test.txt".to_string(), "dummy_hash".to_string());

    let mut backup_job = BackupJob::new(config, hash_registry);
    let report = run_once(&mut backup_job, &tree);
    assert_eq!(report.error, None);

    // Verify the file was skipped (no destination file was created)
    assert!(!written_paths(&report).contains(&"/tmp/destination/test.txt.zst".to_string()));
    assert!(report.written.is_empty());
    assert_eq!(backup_job.hash_registry.get_hash("/tmp/source/test.txt"), Some("dummy_hash".to_string()));
}
