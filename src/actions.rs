use crate::models::{FolderInfo, ProcessStatus};
use vstd::prelude::*;

verus! {

/// Which panel has the focus.
#[derive(Clone, Copy, Debug, PartialEq, Eq, Structural)]
pub enum AppMode {
    Counter,
    Artifacts,
}

impl Default for AppMode {
    fn default() -> (r: AppMode)
        ensures
            r == AppMode::Artifacts,
    {
        AppMode::Artifacts
    }
}

/// Every state change goes through one of these, in order.
#[derive(Clone, Debug, PartialEq, Eq)]
pub enum AppAction {
    Render,
    Quit,
    Tick,
    SwitchMode(AppMode),
    ArtifactsSortByPath,
    ArtifactsSortBySize,
    ArtifactsSortByLastMod,
    /// Ask to remove the selected row.
    ArtifactsRemoveRow,
    ArtifactsInsertRow(FolderInfo),
    ArtifactsSelectNextRow,
    ArtifactsSelectPreviousRow,
    /// The selected row was marked in progress: its directory is to be deleted.
    ArtifactsDeletePath { id: u128, path: String },
    /// A deletion finished.
    ArtifactsUpdateStatus { id: u128, status: ProcessStatus },
    /// A size measurement finished.
    ArtifactsSetSize { id: u128, bytes: u64 },
    /// An age measurement finished.
    ArtifactsSetLastModified { id: u128, secs: u64 },
    CounterIncrement,
    CounterDecrement,
    Error(String),
}

} // verus!
