//! The four user-facing operations, reduced to what they decide and
//! compute: staging files, building a commit, and reporting untracked
//! paths. Repository initialization only creates directories and lives with
//! the caller that touches the file system.

pub mod add;
pub mod commit;
pub mod status;
