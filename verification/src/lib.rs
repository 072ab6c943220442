//! Content-addressed version control for mod folders: the decisions and
//! formatting that the command-line tool performs between its reads and
//! writes, stated and proved.

pub mod text;
pub mod ignore;
pub mod hashing;
pub mod commit;
pub mod branch;
pub mod checkout;
pub mod status;
pub mod clean;
pub mod log;
