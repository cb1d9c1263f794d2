//! Where a run keeps its artifacts: the interface that the pipeline writes
//! through, and the layout of a run's files under a base directory.

use vstd::prelude::*;
use crate::config::RunConfig;
use crate::data::Event;
use crate::data::FinalResult;
use crate::data::hyphenated_text;
use crate::data::id_text;
use crate::data::State;

verus! {

/// A failure of the store, in words.
#[derive(Debug, Clone, PartialEq, Eq)]
pub struct StorageError {
    pub message: String,
}

/// The store of a run's artifacts. The state and the final result are
/// overwritten as a whole; events are appended to a log.
pub trait Storage: Send + Sync {
    /// Makes room for a run and stores its configuration and an empty
    /// state; returns the run's identifier.
    fn init_run(&self, config: &RunConfig) -> Result<u128, StorageError>;

    /// The stored configuration of a run.
    fn load_config(&self, run_id: &u128) -> Result<RunConfig, StorageError>;

    /// The stored state of a run.
    fn load_state(&self, run_id: &u128) -> Result<State, StorageError>;

    /// Stores the state of a run in place of the one stored before.
    fn save_state(&self, state: &State) -> Result<(), StorageError>;

    /// Adds an event to the end of the run's log.
    fn append_event(&self, run_id: &u128, event: &Event) -> Result<(), StorageError>;

    /// Stores the final result of a run in place of one stored before.
    fn save_final(&self, result: &FinalResult) -> Result<(), StorageError>;
}

/// What `std::path::Path::join` makes of a base path and a name, both given
/// as text: the base with the name adjoined. The join is a function of the
/// two texts alone: it reads neither the file system nor the environment,
/// and the separator it puts in is fixed when the library is built.
pub uninterp spec fn joined_path(base: Seq<char>, name: Seq<char>) -> Seq<char>;

/// `std::path::Path::join`, on paths given and returned as text
/// (`Path::new`, `to_string_lossy`). Claimed is only that the result is the
/// one that the join gives to these two texts.
#[verifier::external_body]
pub(crate) fn join_path(base: &str, name: &str) -> (path: String)
    ensures
        path@ == joined_path(base@, name@),
{
    std::path::Path::new(base).join(name).to_string_lossy().into_owned()
}

/// The layout of the runs kept in files under one base directory: each run
/// has a directory named by its identifier, which holds its configuration,
/// state, event log and final result.
pub struct FileStorage {
    base_dir: String,
}

impl FileStorage {
    /// The base directory.
    pub closed spec fn base(self) -> Seq<char> {
        self.base_dir@
    }

    /// The layout under the base directory `base_dir`.
    pub fn new(base_dir: &str) -> (storage: FileStorage)
        ensures
            storage.base() == base_dir@,
    {
        FileStorage { base_dir: base_dir.to_owned() }
    }

    /// The base directory.
    pub fn base_dir(&self) -> (path: &str)
        ensures
            path@ == self.base(),
    {
        self.base_dir.as_str()
    }

    /// The path of the directory of a run: the base directory joined with
    /// the text of the run's identifier.
    pub open spec fn run_dir_path(self, run_id: u128) -> Seq<char> {
        joined_path(self.base(), hyphenated_text(run_id))
    }

    /// The path of the file `name` of a run: the run's directory joined with
    /// the name.
    pub open spec fn file_path(self, run_id: u128, name: Seq<char>) -> Seq<char> {
        joined_path(self.run_dir_path(run_id), name)
    }

    /// The directory of a run: the one under the base directory that is
    /// named by the run's identifier.
    pub fn run_dir(&self, run_id: u128) -> (path: String)
        ensures
            path@ == self.run_dir_path(run_id),
    {
        let name = id_text(run_id);
        join_path(self.base_dir.as_str(), name.as_str())
    }

    /// The file of a run's configuration: "config.json" in the run's
    /// directory.
    pub fn config_path(&self, run_id: u128) -> (path: String)
        ensures
            path@ == self.file_path(run_id, "config.json"@),
    {
        let dir = self.run_dir(run_id);
        join_path(dir.as_str(), "config.json")
    }

    /// The file of a run's state: "state.json" in the run's directory.
    pub fn state_path(&self, run_id: u128) -> (path: String)
        ensures
            path@ == self.file_path(run_id, "state.json"@),
    {
        let dir = self.run_dir(run_id);
        join_path(dir.as_str(), "state.json")
    }

    /// The file of a run's event log: "history.ndjson" in the run's
    /// directory.
    pub fn history_path(&self, run_id: u128) -> (path: String)
        ensures
            path@ == self.file_path(run_id, "history.ndjson"@),
    {
        let dir = self.run_dir(run_id);
        join_path(dir.as_str(), "history.ndjson")
    }

    /// The file of a run's final result: "final.json" in the run's
    /// directory.
    pub fn final_path(&self, run_id: u128) -> (path: String)
        ensures
            path@ == self.file_path(run_id, "final.json"@),
    {
        let dir = self.run_dir(run_id);
        join_path(dir.as_str(), "final.json")
    }
}

} // verus!
