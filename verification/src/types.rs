//! Values exchanged between the viewer's panels and its query and
//! publishing back end.
use vstd::prelude::*;

use crate::text::owned;

verus! {

/// Filter criteria for a readings query. An empty `sites` means "all sites
/// in the lake"; an absent or empty `start`/`end` leaves that side open.
#[derive(Debug, Clone, PartialEq)]
pub struct FilterState {
    pub sites: Vec<String>,
    pub param_cd: String,
    pub start: Option<String>,
    pub end: Option<String>,
}

impl Default for FilterState {
    /// All sites, discharge (`00060`), no date bounds.
    fn default() -> (r: Self)
        ensures
            r.sites@.len() == 0,
            r.param_cd@ == "00060"@,
            r.start is None,
            r.end is None,
    {
        FilterState { sites: Vec::new(), param_cd: owned("00060"), start: None, end: None }
    }
}

/// A published dataset version, for the version history list: the
/// manifest's provenance plus the version's directory name.
/// `approval_status_counts` holds one `(status, count)` pair per status, in
/// increasing status order.
#[derive(Debug, Clone)]
pub struct ManifestSummary {
    pub dir_name: String,
    pub content_hash: String,
    pub parent_hash: Option<String>,
    pub created_at: String,
    pub row_count: usize,
    pub sites: Vec<String>,
    pub param_cd: String,
    pub start: String,
    pub end: String,
    pub max_last_modified: String,
    pub approval_status_counts: Vec<(String, usize)>,
}

/// Outcome of verifying a published version, as the viewer shows it.
#[derive(Debug, Clone)]
pub struct VerifyReport {
    pub ok: bool,
    pub expected_hash: String,
    pub actual_hash: String,
    pub mismatched_files: Vec<String>,
}

} // verus!
