use vstd::prelude::*;

verus! {

/// One recorded download of a static schedule feed.
#[derive(Debug, Clone)]
pub struct DownloadAttempt {
    pub onestop_feed_id: String,
    pub file_hash: Option<String>,
    pub downloaded_unix_time_ms: i64,
    pub ingested: bool,
    pub failed: bool,
    pub mark_for_redo: bool,
    pub url: String,
    pub ingestion_version: i32,
    pub http_response_code: Option<String>,
}

/// The version of the ingestion process that records are written with.
pub const MAPLE_INGESTION_VERSION: i32 = 1;

} // verus!
