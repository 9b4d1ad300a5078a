//! Command-line options of the fetcher and the decisions taken on them
//! before any request is made.
use vstd::prelude::*;
use vstd::string::*;
use vstd::utf8::encode_utf8;

use crate::dates::{parse_ymd, parsed_ymd};
use crate::text::{byte_cut_ok, byte_prefix, byte_prefix_of, owned};

verus! {

/// USGS Water Data API collection to query.
#[derive(Copy, Clone, Debug, PartialEq, Eq, Structural)]
pub enum Service {
    /// Historical daily values (summarized mean/min/max per day)
    Daily,
    /// Continuous high-frequency sensor readings
    Continuous,
}

/// Options of one fetch run. `output` and `output_dir` are paths.
#[derive(Debug, Clone)]
pub struct Cli {
    /// Comma-separated USGS site numbers, e.g. 01646500,03339000
    pub sites: String,
    pub service: Service,
    /// USGS parameter code (00060 = discharge, cubic feet/second)
    pub param: String,
    /// Start date, YYYY-MM-DD
    pub start: Option<String>,
    /// End date, YYYY-MM-DD
    pub end: Option<String>,
    /// Output Parquet file (single-file mode)
    pub output: Option<String>,
    /// Output directory of the partitioned lake
    pub output_dir: Option<String>,
    /// Only fetch data newer than what the lake already holds per site
    pub incremental: bool,
    /// USGS Water Data API key
    pub api_key: Option<String>,
}

/// Where a fetch writes.
#[derive(Copy, Clone, Debug, PartialEq, Eq, Structural)]
pub enum FetchMode {
    /// The partitioned lake under `output_dir`.
    Lake,
    /// One Parquet file at `output`.
    SingleFile,
}

/// Why a fetch is refused before it starts.
#[derive(Debug)]
pub enum FetchError {
    OutputRequired,
    IncrementalNeedsOutputDir,
    StartRequiredSingleFile,
    EndRequiredSingleFile,
    /// Incremental sync of this site found nothing on disk and no start date was given.
    NoExistingData(String),
    StartRequired,
}

impl FetchError {
    /// The message the fetcher reports for this refusal.
    pub fn message(&self) -> (r: String)
        ensures
            self is OutputRequired ==> r@ == "one of --output or --output-dir is required"@,
            self is IncrementalNeedsOutputDir ==> r@ == "--incremental requires --output-dir"@,
            self is StartRequiredSingleFile ==> r@ == "--start is required in single-file mode"@,
            self is EndRequiredSingleFile ==> r@ == "--end is required in single-file mode"@,
            self is NoExistingData ==> r@ == "no existing data for site "@ + self->NoExistingData_0@
                + "; provide --start for its initial sync"@,
            self is StartRequired ==> r@ == "--start is required unless --incremental finds existing data"@,
    {
        match self {
            FetchError::OutputRequired => owned("one of --output or --output-dir is required"),
            FetchError::IncrementalNeedsOutputDir => owned("--incremental requires --output-dir"),
            FetchError::StartRequiredSingleFile => owned("--start is required in single-file mode"),
            FetchError::EndRequiredSingleFile => owned("--end is required in single-file mode"),
            FetchError::NoExistingData(site) => {
                let mut m = owned("no existing data for site ");
                m.append(site.as_str());
                m.append("; provide --start for its initial sync");
                m
            },
            FetchError::StartRequired => owned(
                "--start is required unless --incremental finds existing data",
            ),
        }
    }
}

/// Checks the output options and picks the mode: the lake when an output
/// directory is given, a single file otherwise.
pub fn run_fetch(cli: &Cli) -> (r: Result<FetchMode, FetchError>)
    ensures
        cli.output is None && cli.output_dir is None ==> r matches Err(FetchError::OutputRequired),
        (cli.output is Some || cli.output_dir is Some) && cli.incremental && cli.output_dir is None
            ==> r matches Err(FetchError::IncrementalNeedsOutputDir),
        (cli.output is Some || cli.output_dir is Some) && !(cli.incremental
            && cli.output_dir is None) ==> r == Ok::<FetchMode, FetchError>(
            if cli.output_dir is Some {
                FetchMode::Lake
            } else {
                FetchMode::SingleFile
            },
        ),
{
    if cli.output.is_none() && cli.output_dir.is_none() {
        return Err(FetchError::OutputRequired);
    }
    if cli.incremental && cli.output_dir.is_none() {
        return Err(FetchError::IncrementalNeedsOutputDir);
    }
    if cli.output_dir.is_some() {
        Ok(FetchMode::Lake)
    } else {
        Ok(FetchMode::SingleFile)
    }
}

/// The date range of a single-file fetch: both ends are required.
pub fn single_file_range(cli: &Cli) -> (r: Result<(String, String), FetchError>)
    ensures
        cli.start is None ==> r matches Err(FetchError::StartRequiredSingleFile),
        cli.start is Some && cli.end is None ==> r matches Err(FetchError::EndRequiredSingleFile),
        cli.start is Some && cli.end is Some ==> (r matches Ok((s, e)) && s@ == cli.start->0@
            && e@ == cli.end->0@),
{
    match &cli.start {
        None => Err(FetchError::StartRequiredSingleFile),
        Some(start) => match &cli.end {
            None => Err(FetchError::EndRequiredSingleFile),
            Some(end) => Ok((start.clone(), end.clone())),
        },
    }
}

/// The first 10 bytes of a timestamp (all of it when shorter): its date.
pub fn date_only(timestamp: &str) -> (r: &str)
    requires
        byte_cut_ok(timestamp@, 10),
    ensures
        r.spec_bytes() == byte_prefix(timestamp@, 10),
{
    byte_prefix_of(timestamp, 10)
}

/// The start date for one site of a lake fetch. An incremental sync resumes
/// at the day of the latest reading already stored (so late data of that
/// day is fetched again); with nothing stored, or without `incremental`,
/// the given start date is used and is then required.
pub fn resume_start(site: &str, incremental: bool, existing_max: Option<&str>, start: Option<&str>) -> (r: Result<String, FetchError>)
    requires
        incremental && existing_max is Some ==> byte_cut_ok(existing_max->0@, 10),
    ensures
        incremental && existing_max is Some ==> (r matches Ok(s) && encode_utf8(s@)
            == byte_prefix(existing_max->0@, 10)),
        incremental && existing_max is None && start is Some ==> (r matches Ok(s) && s@
            == start->0@),
        incremental && existing_max is None && start is None ==> (r matches Err(
            FetchError::NoExistingData(s),
        ) && s@ == site@),
        !incremental && start is Some ==> (r matches Ok(s) && s@ == start->0@),
        !incremental && start is None ==> r matches Err(FetchError::StartRequired),
{
    if incremental {
        match existing_max {
            Some(max) => {
                let day = date_only(max);
                Ok(owned(day))
            },
            None => match start {
                Some(st) => Ok(owned(st)),
                None => Err(FetchError::NoExistingData(owned(site))),
            },
        }
    } else {
        match start {
            Some(st) => Ok(owned(st)),
            None => Err(FetchError::StartRequired),
        }
    }
}

/// The message a rejected date option reports.
pub open spec fn invalid_date_message(s: Seq<char>, reason: Seq<char>) -> Seq<char> {
    "invalid date '"@ + s + "': expected YYYY-MM-DD ("@ + reason + ")"@
}

/// Validates a `YYYY-MM-DD` date option (as chrono parses it) and keeps its
/// text unchanged.
pub fn parse_date(s: &str) -> (r: Result<String, String>)
    ensures
        match parsed_ymd(s@) {
            Ok(_) => r matches Ok(t) && t@ == s@,
            Err(reason) => r matches Err(m) && m@ == invalid_date_message(s@, reason),
        },
{
    match parse_ymd(s) {
        Ok(_) => Ok(owned(s)),
        Err(reason) => {
            let mut m = owned("invalid date '");
            m.append(s);
            m.append("': expected YYYY-MM-DD (");
            m.append(reason.as_str());
            m.append(")");
            Err(m)
        },
    }
}

} // verus!
