//! The project records that the operations read.
use vstd::prelude::*;

verus! {

/// How recently a project has seen work.
#[derive(Clone, Copy, Debug, PartialEq, Eq, Structural)]
pub enum ActivityTier {
    Active,
    Cold,
    Archive,
}

/// The state of a project's working tree.
#[derive(Clone, Copy, Debug, PartialEq, Eq, Structural)]
pub enum VcsStatus {
    Clean,
    Dirty,
    Untracked,
    Missing,
}

/// Architectural traits detected in a project.
#[derive(Clone, Debug)]
pub struct ProjectDna {
    pub roles: Vec<String>,
    pub capabilities: Vec<String>,
}

/// One project of the workspace, with what discovery found out about it.
#[derive(Clone, Debug)]
pub struct ProjectDetail {
    pub name: String,
    /// Location of the project on disk.
    pub path: String,
    pub stack: String,
    pub tags: Vec<String>,
    pub artifact_dirs: Vec<String>,
    pub activity: ActivityTier,
    pub vcs_status: VcsStatus,
    pub essence: Option<String>,
    pub dna: ProjectDna,
    pub total_size: u64,
}

} // verus!

verus! {

/// Why an operation could not be carried out.
#[derive(Clone, Debug)]
pub enum ToadError {
    /// An external command or step failed; the text says how.
    OperationFailed(String),
    /// Reading or writing the file system failed.
    Io(String),
    /// The configuration does not allow the request.
    Config(String),
}

} // verus!

verus! {

/// The text that describes an error.
pub open spec fn error_message(e: ToadError) -> Seq<char> {
    match e {
        ToadError::OperationFailed(m) => "Operation failed: "@ + m@,
        ToadError::Io(m) => "IO error: "@ + m@,
        ToadError::Config(m) => "Configuration error: "@ + m@,
    }
}

impl ToadError {
    /// The text that describes the error.
    pub fn message(&self) -> (r: String)
        ensures
            r@ == error_message(*self),
    {
        match self {
            ToadError::OperationFailed(m) => crate::text::concat("Operation failed: ", m.as_str()),
            ToadError::Io(m) => crate::text::concat("IO error: ", m.as_str()),
            ToadError::Config(m) => crate::text::concat("Configuration error: ", m.as_str()),
        }
    }
}

} // verus!
