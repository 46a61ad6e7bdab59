//! The backup job: which files a run takes up, what is made of each, and what
//! the ledger holds once their outcomes are in.
//!
//! The job does no input or output of its own. It answers each step of a run
//! with the `Action` that its driver is to perform next, and takes what the
//! driver found as the argument of the following step.

use crate::compression::{compress_file, zstd_content, zstd_frame, CodecError, COMPRESSION_LEVEL};
use crate::config::Config;
use crate::hashing::{
    blake3_hex, entry_paths, entry_views, hash_file, is_hex_digest, map_of, HashRegistry,
};
use crate::path::{destination_of, destination_path, lemma_views_push, views};
use vstd::prelude::*;

verus! {

/// Why one file could not be transcoded. It fails that file alone.
#[derive(Debug)]
pub enum FileError {
    /// The file is not under the source root.
    NotUnderRoot,
    /// The codec failed on the file's content.
    Codec(CodecError),
}

/// What is made of one source file.
#[derive(Debug)]
pub struct Artifact {
    /// Where the compressed bytes are to be written.
    pub destination: String,
    /// The compressed content.
    pub compressed: Vec<u8>,
    /// The content hash of the file as it was read, before compression.
    pub hash: String,
}

/// Puts together what was computed for one file: the artifact where there is a
/// destination and the codec succeeded, `NotUnderRoot` where there is no
/// destination, and otherwise the codec's error.
pub fn assemble_artifact(
    destination: Option<String>,
    compressed: Result<Vec<u8>, CodecError>,
    hash: String,
) -> (result: Result<Artifact, FileError>)
    ensures
        match (destination, compressed) {
            (None, _) => result == Err::<Artifact, FileError>(FileError::NotUnderRoot),
            (Some(_), Err(error)) => result == Err::<Artifact, FileError>(FileError::Codec(error)),
            (Some(destination), Ok(compressed)) => result == Ok::<Artifact, FileError>(
                Artifact { destination, compressed, hash },
            ),
        },
{
    match destination {
        None => Err(FileError::NotUnderRoot),
        Some(destination) => match compressed {
            Err(error) => Err(FileError::Codec(error)),
            Ok(compressed) => Ok(Artifact { destination, compressed, hash }),
        },
    }
}

/// Transcodes one source file whose bytes are `content`: finds where its
/// artifact goes, compresses the content and hashes the content as it was
/// read. A file that is not under the source root is refused before the codec
/// is called; for any other file the codec decides, and `assemble_artifact`
/// says what is made of its outcome.
pub fn process_file(
    source_file: &str,
    source_root: &str,
    destination_root: &str,
    content: &[u8],
) -> (result: Result<Artifact, FileError>)
    ensures
        match result {
            Ok(artifact) => {
                &&& destination_of(source_file@, source_root@, destination_root@) == Some(
                    artifact.destination@,
                )
                &&& artifact.compressed@ == zstd_frame(content@, COMPRESSION_LEVEL as int)
                &&& zstd_content(artifact.compressed@) == Some(content@)
                &&& artifact.hash@ == blake3_hex(content@)
                &&& is_hex_digest(artifact.hash@)
            },
            Err(FileError::NotUnderRoot) => destination_of(
                source_file@,
                source_root@,
                destination_root@,
            ) is None,
            Err(FileError::Codec(_)) => destination_of(
                source_file@,
                source_root@,
                destination_root@,
            ) is Some,
        },
{
    let destination = destination_path(source_file, source_root, destination_root);
    if destination.is_none() {
        return Err(FileError::NotUnderRoot);
    }
    let compressed = compress_file(content);
    let hash = hash_file(content);
    assemble_artifact(destination, compressed, hash)
}

/// Whether a run takes `path` up: the filter lets it through and the ledger
/// has no entry for it.
pub open spec fn is_candidate(
    config: Config,
    ledger: Map<Seq<char>, Seq<char>>,
    path: Seq<char>,
) -> bool {
    !config.excludes(path) && !ledger.contains_key(path)
}

/// The candidates among `files`, in the order of `files`.
pub open spec fn candidates(
    config: Config,
    ledger: Map<Seq<char>, Seq<char>>,
    files: Seq<Seq<char>>,
) -> Seq<Seq<char>>
    decreases files.len(),
{
    if files.len() == 0 {
        Seq::<Seq<char>>::empty()
    } else {
        let before = candidates(config, ledger, files.drop_last());
        if is_candidate(config, ledger, files.last()) {
            before.push(files.last())
        } else {
            before
        }
    }
}

/// The views of a sequence of outcomes: the hash of a file that was
/// transcoded, `None` for one that failed.
pub open spec fn outcome_views(outcomes: Seq<Option<String>>) -> Seq<Option<Seq<char>>> {
    outcomes.map_values(
        |outcome: Option<String>|
            match outcome {
                Some(hash) => Some(hash@),
                None => None,
            },
    )
}

/// The ledger after the first `count` outcomes are recorded: each hash under
/// the path at the same position of `pending`, failures not at all.
pub open spec fn recorded_first(
    ledger: Map<Seq<char>, Seq<char>>,
    pending: Seq<Seq<char>>,
    outcomes: Seq<Option<Seq<char>>>,
    count: nat,
) -> Map<Seq<char>, Seq<char>>
    decreases count,
{
    if count == 0 {
        ledger
    } else {
        let before = recorded_first(ledger, pending, outcomes, (count - 1) as nat);
        match outcomes[count - 1] {
            Some(hash) => before.insert(pending[count - 1], hash),
            None => before,
        }
    }
}

/// How many of `pending` have an outcome.
pub open spec fn answered(pending: Seq<Seq<char>>, outcomes: Seq<Option<Seq<char>>>) -> nat {
    if pending.len() <= outcomes.len() {
        pending.len()
    } else {
        outcomes.len()
    }
}

/// The ledger after a run's outcomes are recorded. The outcome at a position
/// is that of the path at the same position of `pending`; a path without an
/// outcome counts as failed.
pub open spec fn recorded(
    ledger: Map<Seq<char>, Seq<char>>,
    pending: Seq<Seq<char>>,
    outcomes: Seq<Option<Seq<char>>>,
) -> Map<Seq<char>, Seq<char>> {
    recorded_first(ledger, pending, outcomes, answered(pending, outcomes))
}

/// How far a job has come.
#[derive(Clone, Copy, Debug, PartialEq, Eq, Structural)]
pub enum Phase {
    /// No run has started.
    Idle,
    /// The driver is walking the source tree.
    Enumerating,
    /// The driver is transcoding the candidates.
    Processing,
    /// The driver is writing the ledger.
    Persisting,
    /// The run is over.
    Done,
}

/// How a run was started. The two differ in what they tell the operator.
#[derive(Clone, Copy, Debug, PartialEq, Eq, Structural)]
pub enum Mode {
    /// A full backup.
    Run,
    /// The rest of an interrupted backup.
    Resume,
}

/// What the operator is told.
#[derive(Clone, Copy, Debug, PartialEq, Eq, Structural)]
pub enum Notice {
    /// A backup found nothing to do.
    UpToDate,
    /// A resumed backup found nothing left to do.
    AlreadyComplete,
    /// A resumed backup goes on with this many files.
    Resuming(usize),
    /// A backup has gone through its candidates.
    BackupCompleted,
    /// A resumed backup has gone through its candidates.
    ResumeCompleted,
}

/// Why a step of a job was refused or a run ended badly.
#[derive(Clone, Copy, Debug, PartialEq, Eq, Structural)]
pub enum JobError {
    /// The configuration names no source root.
    SourceNotSet,
    /// The configuration names no destination root.
    DestinationNotSet,
    /// The ledger could not be written; the artifacts stay where they are.
    LedgerNotSaved,
    /// The step does not follow the one before it.
    OutOfTurn,
}

/// What the driver of a job is to do next.
#[derive(Debug)]
pub enum Action {
    /// Walk the tree under `source_root` without following links, skip what
    /// cannot be read, and hand the regular files to `enumerated`.
    Enumerate { source_root: String },
    /// Create `destination_root`, transcode every candidate with
    /// `process_file`, in any order, and hand the outcomes to `process_files`
    /// in the order of `candidates`.
    Dispatch {
        source_root: String,
        destination_root: String,
        candidates: Vec<String>,
        announce: Option<Notice>,
    },
    /// Write `entries` to `path` as the whole ledger and hand the result to
    /// `persisted`.
    Persist { path: String, entries: Vec<(String, String)> },
    /// Nothing: the run is over.
    Finish { notice: Notice },
}

/// What a run that found no candidates tells the operator.
pub open spec fn nothing_to_do(mode: Mode) -> Notice {
    match mode {
        Mode::Run => Notice::UpToDate,
        Mode::Resume => Notice::AlreadyComplete,
    }
}

/// What a run tells the operator before it dispatches `count` candidates.
pub open spec fn starting(mode: Mode, count: usize) -> Option<Notice> {
    match mode {
        Mode::Run => None,
        Mode::Resume => Some(Notice::Resuming(count)),
    }
}

/// What a run tells the operator once its candidates are through.
pub open spec fn completed(mode: Mode) -> Notice {
    match mode {
        Mode::Run => Notice::BackupCompleted,
        Mode::Resume => Notice::ResumeCompleted,
    }
}

/// Where a job stands in its run. Only the job's own steps change it.
pub struct Progress {
    phase: Phase,
    mode: Mode,
    source_root: String,
    destination_root: String,
    pending: Vec<String>,
}

impl Progress {
    /// How far the job has come.
    pub closed spec fn phase(&self) -> Phase {
        self.phase
    }

    /// How the current run was started.
    pub closed spec fn mode(&self) -> Mode {
        self.mode
    }

    /// The source root of the current run.
    pub closed spec fn source_root(&self) -> Seq<char> {
        self.source_root@
    }

    /// The destination root of the current run.
    pub closed spec fn destination_root(&self) -> Seq<char> {
        self.destination_root@
    }

    /// The candidates of the current run, in the order of their dispatch.
    pub closed spec fn pending(&self) -> Seq<Seq<char>> {
        views(self.pending@)
    }

    /// How far the job has come.
    pub fn current_phase(&self) -> (phase: Phase)
        ensures
            phase == self.phase(),
    {
        self.phase
    }
}

impl Progress {
    /// Whether a run may start: none is under way.
    pub open spec fn at_rest(&self) -> bool {
        self.phase() == Phase::Idle || self.phase() == Phase::Done
    }

    /// Whether `other` differs from `self` in its phase at most.
    pub open spec fn same_run(&self, other: Progress) -> bool {
        &&& other.mode() == self.mode()
        &&& other.source_root() == self.source_root()
        &&& other.destination_root() == self.destination_root()
        &&& other.pending() == self.pending()
    }
}

/// A backup of one source tree into one destination tree.
pub struct BackupJob {
    /// What the backup is configured with.
    pub config: Config,
    /// The ledger of this backup.
    pub hash_registry: HashRegistry,
    /// Where the job stands in its run.
    pub progress: Progress,
}

impl BackupJob {
    /// A job that has not started.
    pub fn new(config: Config, hash_registry: HashRegistry) -> (job: Self)
        ensures
            job.config == config,
            job.hash_registry == hash_registry,
            job.progress.phase() == Phase::Idle,
            job.progress.pending() == Seq::<Seq<char>>::empty(),
    {
        let progress = Progress {
            phase: Phase::Idle,
            mode: Mode::Run,
            source_root: String::new(),
            destination_root: String::new(),
            pending: Vec::new(),
        };
        assert(progress.pending() =~= Seq::<Seq<char>>::empty());
        BackupJob { config, hash_registry, progress }
    }

    /// The files among `files` that the next dispatch takes up: those that the
    /// filter lets through and that have no entry in the ledger, in the order
    /// of `files`.
    pub fn collect_files_to_process(&self, files: &Vec<String>) -> (chosen: Vec<String>)
        ensures
            views(chosen@) == candidates(self.config, self.hash_registry@, views(files@)),
    {
        let n = files.len();
        let mut chosen: Vec<String> = Vec::new();
        let mut i: usize = 0;
        assert(views(files@).take(0) =~= Seq::<Seq<char>>::empty());
        assert(views(chosen@) =~= Seq::<Seq<char>>::empty());
        while i < n
            invariant
                i <= n,
                n == files@.len(),
                views(chosen@) == candidates(
                    self.config,
                    self.hash_registry@,
                    views(files@).take(i as int),
                ),
            decreases n - i,
        {
            let file = files[i].clone();
            proof {
                let grown = views(files@).take(i + 1);
                assert(grown.drop_last() =~= views(files@).take(i as int));
                assert(grown.last() == file@);
                lemma_views_push(chosen@, file);
            }
            if !self.config.is_blacklisted(file.as_str()) && !self.hash_registry.has_hash(
                file.as_str(),
            ) {
                chosen.push(file);
            }
            i = i + 1;
        }
        proof {
            assert(views(files@).take(n as int) =~= views(files@));
        }
        chosen
    }

    /// What starting a run in `mode` comes to. A run starts only from rest and
    /// only with both roots configured; it then waits for the source tree to
    /// be enumerated. Otherwise nothing changes.
    pub open spec fn started(
        before: BackupJob,
        mode: Mode,
        after: BackupJob,
        result: Result<Action, JobError>,
    ) -> bool {
        &&& after.config == before.config
        &&& after.hash_registry@ == before.hash_registry@
        &&& if !before.progress.at_rest() {
            result == Err::<Action, JobError>(JobError::OutOfTurn) && after.progress
                == before.progress
        } else if before.config.source_path is None {
            result == Err::<Action, JobError>(JobError::SourceNotSet) && after.progress
                == before.progress
        } else if before.config.destination_path is None {
            result == Err::<Action, JobError>(JobError::DestinationNotSet) && after.progress
                == before.progress
        } else {
            &&& after.progress.phase() == Phase::Enumerating
            &&& after.progress.mode() == mode
            &&& after.progress.source_root() == before.config.source_path->0@
            &&& after.progress.destination_root() == before.config.destination_path->0@
            &&& after.progress.pending() == Seq::<Seq<char>>::empty()
            &&& result matches Ok(Action::Enumerate { source_root })
            &&& source_root@ == before.config.source_path->0@
        }
    }

    /// Starts a run in `mode`, or refuses to.
    fn start(&mut self, mode: Mode) -> (result: Result<Action, JobError>)
        ensures
            BackupJob::started(*old(self), mode, *final(self), result),
    {
        if self.progress.phase != Phase::Idle && self.progress.phase != Phase::Done {
            return Err(JobError::OutOfTurn);
        }
        let source_root = match &self.config.source_path {
            Some(path) => path.clone(),
            None => {
                return Err(JobError::SourceNotSet);
            },
        };
        let destination_root = match &self.config.destination_path {
            Some(path) => path.clone(),
            None => {
                return Err(JobError::DestinationNotSet);
            },
        };
        let progress = Progress {
            phase: Phase::Enumerating,
            mode,
            source_root: source_root.clone(),
            destination_root,
            pending: Vec::new(),
        };
        assert(progress.pending() =~= Seq::<Seq<char>>::empty());
        self.progress = progress;
        Ok(Action::Enumerate { source_root })
    }

    /// Starts a full backup.
    pub fn run(&mut self) -> (result: Result<Action, JobError>)
        ensures
            BackupJob::started(*old(self), Mode::Run, *final(self), result),
    {
        self.start(Mode::Run)
    }

    /// Starts the rest of an interrupted backup.
    pub fn resume(&mut self) -> (result: Result<Action, JobError>)
        ensures
            BackupJob::started(*old(self), Mode::Resume, *final(self), result),
    {
        self.start(Mode::Resume)
    }

    /// What taking in the enumerated `files` comes to. With no candidate among
    /// them the run is over and the ledger is never written; otherwise the
    /// candidates are dispatched.
    pub open spec fn taken_in(
        before: BackupJob,
        files: Seq<Seq<char>>,
        after: BackupJob,
        result: Result<Action, JobError>,
    ) -> bool {
        let chosen = candidates(before.config, before.hash_registry@, files);
        &&& after.config == before.config
        &&& after.hash_registry@ == before.hash_registry@
        &&& if before.progress.phase() != Phase::Enumerating {
            result == Err::<Action, JobError>(JobError::OutOfTurn) && after.progress
                == before.progress
        } else {
            &&& after.progress.mode() == before.progress.mode()
            &&& after.progress.source_root() == before.progress.source_root()
            &&& after.progress.destination_root() == before.progress.destination_root()
            &&& after.progress.pending() == chosen
            &&& if chosen.len() == 0 {
                &&& after.progress.phase() == Phase::Done
                &&& result == Ok::<Action, JobError>(
                    Action::Finish { notice: nothing_to_do(before.progress.mode()) },
                )
            } else {
                &&& after.progress.phase() == Phase::Processing
                &&& result matches Ok(
                    Action::Dispatch { source_root, destination_root, candidates, announce },
                )
                &&& source_root@ == before.progress.source_root()
                &&& destination_root@ == before.progress.destination_root()
                &&& views(candidates@) == chosen
                &&& announce == starting(before.progress.mode(), candidates.len())
            }
        }
    }

    /// Takes in the regular files that were found under the source root.
    pub fn enumerated(&mut self, files: Vec<String>) -> (result: Result<Action, JobError>)
        ensures
            BackupJob::taken_in(*old(self), views(files@), *final(self), result),
    {
        if self.progress.phase != Phase::Enumerating {
            return Err(JobError::OutOfTurn);
        }
        let chosen = self.collect_files_to_process(&files);
        let mode = self.progress.mode;
        let source_root = self.progress.source_root.clone();
        let destination_root = self.progress.destination_root.clone();
        if chosen.len() == 0 {
            self.progress = Progress {
                phase: Phase::Done,
                mode,
                source_root,
                destination_root,
                pending: chosen,
            };
            let notice = match mode {
                Mode::Run => Notice::UpToDate,
                Mode::Resume => Notice::AlreadyComplete,
            };
            return Ok(Action::Finish { notice });
        }
        let candidates = chosen.clone();
        assert(views(candidates@) =~= views(chosen@)) by {
            assert(candidates@.len() == chosen@.len());
            assert forall|i: int| 0 <= i < chosen@.len() implies candidates@[i]@ == chosen@[i]@ by {
                assert(candidates@[i] == chosen@[i]);
            }
        }
        let announce = match mode {
            Mode::Run => None,
            Mode::Resume => Some(Notice::Resuming(candidates.len())),
        };
        self.progress = Progress {
            phase: Phase::Processing,
            mode,
            source_root: source_root.clone(),
            destination_root: destination_root.clone(),
            pending: chosen,
        };
        Ok(Action::Dispatch { source_root, destination_root, candidates, announce })
    }

    /// What taking in the outcomes of a dispatch comes to. The hash of every
    /// candidate that was transcoded is recorded, a failure leaves the ledger
    /// as it was for its path, and no outcome makes the step fail. The ledger
    /// is then written where the configuration names a place for it.
    pub open spec fn recorded_run(
        before: BackupJob,
        outcomes: Seq<Option<Seq<char>>>,
        after: BackupJob,
        result: Result<Action, JobError>,
    ) -> bool {
        &&& after.config == before.config
        &&& if before.progress.phase() != Phase::Processing {
            &&& result == Err::<Action, JobError>(JobError::OutOfTurn)
            &&& after.progress == before.progress
            &&& after.hash_registry@ == before.hash_registry@
        } else {
            &&& after.hash_registry@ == recorded(
                before.hash_registry@,
                before.progress.pending(),
                outcomes,
            )
            &&& before.progress.same_run(after.progress)
            &&& match before.config.hash_file_path {
                Some(ledger_path) => {
                    &&& after.progress.phase() == Phase::Persisting
                    &&& result matches Ok(Action::Persist { path, entries })
                    &&& path@ == ledger_path@
                    &&& map_of(entry_views(entries@)) == after.hash_registry@
                    &&& entry_paths(entry_views(entries@)) == after.hash_registry.paths()
                    &&& entry_paths(entry_views(entries@)).no_duplicates()
                },
                None => {
                    &&& after.progress.phase() == Phase::Done
                    &&& result == Ok::<Action, JobError>(
                        Action::Finish { notice: completed(before.progress.mode()) },
                    )
                },
            }
        }
    }

    /// Takes in the outcomes of a dispatch, in the order of its candidates:
    /// the hash of a file that was transcoded, `None` for one that failed.
    pub fn process_files(&mut self, outcomes: Vec<Option<String>>) -> (result: Result<
        Action,
        JobError,
    >)
        ensures
            BackupJob::recorded_run(*old(self), outcome_views(outcomes@), *final(self), result),
    {
        if self.progress.phase != Phase::Processing {
            return Err(JobError::OutOfTurn);
        }
        let count = if self.progress.pending.len() <= outcomes.len() {
            self.progress.pending.len()
        } else {
            outcomes.len()
        };
        let ghost ledger = self.hash_registry@;
        let ghost pending = self.progress.pending();
        let mut i: usize = 0;
        while i < count
            invariant
                i <= count,
                count == answered(pending, outcome_views(outcomes@)),
                pending == self.progress.pending(),
                pending == views(self.progress.pending@),
                self.config == old(self).config,
                self.progress == old(self).progress,
                self.hash_registry@ == recorded_first(
                    ledger,
                    pending,
                    outcome_views(outcomes@),
                    i as nat,
                ),
            decreases count - i,
        {
            match &outcomes[i] {
                Some(hash) => {
                    let path = self.progress.pending[i].clone();
                    self.hash_registry.set_hash(path, hash.clone());
                },
                None => {},
            }
            i = i + 1;
        }
        let mode = self.progress.mode;
        match &self.config.hash_file_path {
            Some(ledger_path) => {
                let path = ledger_path.clone();
                let entries = self.hash_registry.entries();
                self.progress.phase = Phase::Persisting;
                Ok(Action::Persist { path, entries })
            },
            None => {
                self.progress.phase = Phase::Done;
                let notice = match mode {
                    Mode::Run => Notice::BackupCompleted,
                    Mode::Resume => Notice::ResumeCompleted,
                };
                Ok(Action::Finish { notice })
            },
        }
    }

    /// What taking in the result of writing the ledger comes to: the run is
    /// over either way, and a ledger that was not written is an error.
    pub open spec fn written(
        before: BackupJob,
        saved: bool,
        after: BackupJob,
        result: Result<Action, JobError>,
    ) -> bool {
        &&& after.config == before.config
        &&& after.hash_registry@ == before.hash_registry@
        &&& if before.progress.phase() != Phase::Persisting {
            result == Err::<Action, JobError>(JobError::OutOfTurn) && after.progress
                == before.progress
        } else {
            &&& after.progress.phase() == Phase::Done
            &&& before.progress.same_run(after.progress)
            &&& result == if saved {
                Ok::<Action, JobError>(Action::Finish { notice: completed(before.progress.mode()) })
            } else {
                Err::<Action, JobError>(JobError::LedgerNotSaved)
            }
        }
    }

    /// Takes in whether the ledger was written.
    pub fn persisted(&mut self, saved: bool) -> (result: Result<Action, JobError>)
        ensures
            BackupJob::written(*old(self), saved, *final(self), result),
    {
        if self.progress.phase != Phase::Persisting {
            return Err(JobError::OutOfTurn);
        }
        self.progress.phase = Phase::Done;
        if saved {
            let notice = match self.progress.mode {
                Mode::Run => Notice::BackupCompleted,
                Mode::Resume => Notice::ResumeCompleted,
            };
            Ok(Action::Finish { notice })
        } else {
            Err(JobError::LedgerNotSaved)
        }
    }
}

} // verus!
