//! The values that the library is handed and hands back: the configuration of
//! a repository, what was found of one on disk, and the records of unfinished
//! tasks.

use vstd::prelude::*;
use vstd::string::StringExecFns;

verus! {

/// The configuration of one repository. It does not change while a store
/// that was opened with it is in use.
#[derive(Clone, Debug)]
pub struct Config {
    pub local_path: String,
    pub user_name: String,
    pub user_email: String,
    pub remote_url: Option<String>,
    pub token: Option<String>,
    /// One of `github`, `gitlab` and `gitee`.
    pub git_provider: String,
    pub enable_github_pages: bool,
}

impl Default for Config {
    fn default() -> (r: Self)
        ensures
            r.local_path@.len() == 0,
            r.user_name@.len() == 0,
            r.user_email@.len() == 0,
            r.remote_url is None,
            r.token is None,
            r.git_provider@ == "github"@,
            !r.enable_github_pages,
    {
        Config {
            local_path: String::new(),
            user_name: String::new(),
            user_email: String::new(),
            remote_url: None,
            token: None,
            git_provider: String::from_str("github"),
            enable_github_pages: false,
        }
    }
}

/// What an existing repository says of itself.
#[derive(Clone, Debug)]
pub struct GitInfo {
    pub user_name: Option<String>,
    pub user_email: Option<String>,
    pub remote_url: Option<String>,
    pub git_provider: Option<String>,
}

/// Where the data directory is.
#[derive(Clone, Debug)]
pub struct DataPointer {
    pub data_path: String,
}

/// A task of an earlier day that is not completed.
#[derive(Clone, Debug)]
pub struct PastUncompletedTask {
    /// The day of the note that holds the task, as `YYYY-MM-DD`.
    pub source_date: String,
    /// The task's text.
    pub text: String,
    /// The identifier derived from the date and the text.
    pub id: String,
}

/// What is kept of the unfinished tasks of earlier days.
#[derive(Clone, Debug)]
pub struct PastUncompleted {
    /// The identifiers of the tasks that were dismissed.
    pub dismissed: Vec<String>,
    /// The day of the last check.
    pub last_checked: String,
}

impl Default for PastUncompleted {
    fn default() -> (r: Self)
        ensures
            r.dismissed@.len() == 0,
            r.last_checked@.len() == 0,
    {
        PastUncompleted { dismissed: Vec::new(), last_checked: String::new() }
    }
}

} // verus!
