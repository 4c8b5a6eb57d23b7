//! The command-line surface: one record per subcommand, carrying plain
//! values. Argument parsing itself is I/O and lives outside the library;
//! these types are what the run logic is handed.

use vstd::prelude::*;

verus! {

/// A parsed invocation.
#[derive(Debug, Clone)]
pub struct Cli {
    pub subcmd: SubCommands,
}

/// The four operations the tool offers.
#[derive(Debug, Clone)]
pub enum SubCommands {
    /// Print every database entry.
    List(ListArgs),
    /// Download pages, skipping those already fingerprinted.
    Download(DownloadArgs),
    /// Re-download every database entry whose directory is missing.
    Fix(FixArgs),
    /// Reshape a browser cookie export into the jar's on-disk schema.
    Translate(TranslateArgs),
}

/// Arguments of `download`: optional cookie and database paths and the
/// page URLs to process.
#[derive(Debug, Clone)]
pub struct DownloadArgs {
    pub cookie_file: Option<String>,
    pub data_path: Option<String>,
    pub url: Vec<String>,
}

/// Arguments of `list`: the database path.
#[derive(Debug, Clone)]
pub struct ListArgs {
    pub data_path: String,
}

/// Arguments of `fix`: an optional cookie path and the database path.
#[derive(Debug, Clone)]
pub struct FixArgs {
    pub cookie_file: Option<String>,
    pub data_path: String,
}

/// Arguments of `translate`: the export JSON inline or as a file path.
#[derive(Debug, Clone)]
pub struct TranslateArgs {
    pub input: Option<String>,
    pub file: Option<String>,
}

/// The precondition of `download`: at least one page URL was supplied.
/// A run with none is a reported error before any work starts.
pub fn download_args_valid(args: &DownloadArgs) -> (r: bool)
    ensures
        r == (args.url@.len() > 0),
{
    args.url.len() > 0
}

} // verus!
