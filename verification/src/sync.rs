//! File-based out-of-band signalling between the harness and the capture
//! orchestrator.
//!
//! Standard input is strictly reserved for terminal report bytes; page
//! synchronization flows exclusively through `.ready` / `.ack` marker files
//! under a directory that the orchestrator supplies. This module names the
//! markers and words the errors; the files themselves are touched by the
//! application.
use crate::text::{decimal, numeral, numeral_reads_back, push_number, push_str, text_of};
use vstd::prelude::*;

verus! {

/// Poll cadence for acknowledgment files, in milliseconds.
pub const ACK_POLL_INTERVAL_MS: u64 = 50;

/// Default deadline for the orchestrator to acknowledge a page, in
/// milliseconds.
pub const ACK_TIMEOUT_MS: u64 = 60_000;

/// Errors surfaced by the sync channel; every variant maps to fail-fast exit.
#[derive(Clone, Debug)]
pub enum SyncError {
    /// The acknowledgment did not come in time.
    AckTimeout {
        /// The marker waited for.
        path: String,
    },
    /// A file operation failed.
    Io {
        /// The file.
        path: String,
        /// What the system said.
        source: String,
    },
}

impl SyncError {
    /// The text of the error.
    pub open spec fn text(self) -> Seq<char> {
        match self {
            SyncError::AckTimeout { path } => "ack timeout waiting for "@ + path@,
            SyncError::Io { path, source } => "io error on "@ + path@ + ": "@ + source@,
        }
    }

    /// The error in words.
    pub fn message(&self) -> (s: String)
        ensures
            s@ == self.text(),
    {
        let mut out: Vec<char> = Vec::new();
        match self {
            SyncError::AckTimeout { path } => {
                push_str(&mut out, "ack timeout waiting for ");
                push_str(&mut out, path.as_str());
            },
            SyncError::Io { path, source } => {
                push_str(&mut out, "io error on ");
                push_str(&mut out, path.as_str());
                push_str(&mut out, ": ");
                push_str(&mut out, source.as_str());
            },
        }
        assert(out@ =~= self.text());
        text_of(out.as_slice())
    }
}

/// Marker-file channel rooted at the orchestrator-provided sync directory.
#[derive(Clone, Debug)]
pub struct SyncChannel {
    /// The sync directory.
    pub dir: String,
    /// Process id of the harness.
    pub pid: u32,
}

/// Name of a marker file.
pub open spec fn marker_text(pid: nat, page: nat, kind: Seq<char>) -> Seq<char> {
    "term_icon_"@ + decimal(pid) + "_page_"@ + decimal(page) + kind
}

impl SyncChannel {
    /// Bind the channel to an orchestrator-created directory.
    ///
    /// The directory must already exist; the harness never invents its own.
    pub fn new(dir: String, pid: u32) -> (c: Self)
        ensures
            c.dir@ == dir@,
            c.pid == pid,
    {
        SyncChannel { dir, pid }
    }

    /// The sync directory in use.
    pub fn dir(&self) -> (d: &str)
        ensures
            d@ == self.dir@,
    {
        self.dir.as_str()
    }

    fn marker(&self, page: u32, kind: &str) -> (s: String)
        ensures
            s@ == marker_text(self.pid as nat, page as nat, kind@),
    {
        let mut out: Vec<char> = Vec::new();
        push_str(&mut out, "term_icon_");
        push_number(&mut out, self.pid as u64);
        push_str(&mut out, "_page_");
        push_number(&mut out, page as u64);
        push_str(&mut out, kind);
        assert(out@ =~= marker_text(self.pid as nat, page as nat, kind@));
        text_of(out.as_slice())
    }

    /// Name of the file that signals that a page is rendered.
    pub fn ready_name(&self, page: u32) -> (s: String)
        ensures
            s@ == marker_text(self.pid as nat, page as nat, ".ready"@),
    {
        self.marker(page, ".ready")
    }

    /// Name of the file that acknowledges a page.
    pub fn ack_name(&self, page: u32) -> (s: String)
        ensures
            s@ == marker_text(self.pid as nat, page as nat, ".ack"@),
    {
        self.marker(page, ".ack")
    }
}

// ---------------------------------------------------------------------------
// Laws
// ---------------------------------------------------------------------------
/// A page's two markers never share a name.
pub proof fn markers_are_apart(pid: nat, page: nat, other: nat)
    ensures
        marker_text(pid, page, ".ready"@) != marker_text(pid, other, ".ack"@),
{
    reveal_strlit(".ready");
    reveal_strlit(".ack");
    let a = marker_text(pid, page, ".ready"@);
    let b = marker_text(pid, other, ".ack"@);
    assert(a.last() == 'y');
    assert(b.last() == 'k');
}

/// Markers of different pages never share a name.
pub proof fn pages_are_apart(pid: nat, page: nat, other: nat, kind: Seq<char>)
    requires
        marker_text(pid, page, kind) == marker_text(pid, other, kind),
    ensures
        page == other,
{
    let head = "term_icon_"@ + decimal(pid) + "_page_"@;
    let a = marker_text(pid, page, kind);
    let from = head.len() as int;
    let to = a.len() - kind.len();
    assert(a.subrange(from, to) =~= decimal(page));
    assert(a.subrange(from, to) =~= decimal(other));
    numeral_reads_back(page, 10, 1);
    numeral_reads_back(other, 10, 1);
}

/// The markers of a page carry the process and the page in their names.
pub proof fn markers_name_process_and_page(pid: nat, page: nat)
    ensures
        marker_text(pid, page, ".ready"@) == "term_icon_"@ + numeral(pid, 10, 1) + "_page"@ + "_"@
            + numeral(page, 10, 1) + ".ready"@,
        marker_text(pid, page, ".ack"@) == "term_icon_"@ + numeral(pid, 10, 1) + "_page"@ + "_"@
            + numeral(page, 10, 1) + ".ack"@,
{
    reveal_strlit("_page_");
    reveal_strlit("_page");
    reveal_strlit("_");
    let head = "term_icon_"@ + numeral(pid, 10, 1);
    assert("_page_"@ =~= "_page"@ + "_"@);
    assert(head + "_page_"@ =~= head + "_page"@ + "_"@);
}

/// What went wrong names the marker it went wrong with.
pub proof fn faults_name_their_marker(path: String, source: String)
    ensures
        (SyncError::AckTimeout { path }).text() == "ack timeout waiting for "@ + path@,
        (SyncError::Io { path, source }).text() == "io error on "@ + path@ + ": "@ + source@,
{
}

} // verus!
