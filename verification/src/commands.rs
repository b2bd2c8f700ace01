//! What the commands hand back: scan results looked up by session, with the
//! messages for unknown sessions.
use vstd::prelude::*;

use crate::bigfiles::{large_parts, LargeScanSession};
use crate::dupes::{dupe_session_parts, DupeScanSession};
use crate::scan::CategoryResult;
use crate::state::AppState;

verus! {

/// The environment the scan runs in, as shown to the user.
pub struct EnvInfo {
    pub is_admin: bool,
    pub browsers_running: Vec<String>,
    pub wuauserv_running: bool,
    pub version: String,
}

/// A category scan as sent to the user interface.
pub struct ScanResultDto {
    pub session_id: u32,
    pub drive: String,
    pub done: bool,
    pub cancelled: bool,
    pub results: Vec<CategoryResult>,
}

/// Totals for the status bar.
pub struct StatsDto {
    pub freed_total_bytes: u64,
    pub recovery_bytes: u64,
}

/// Copies of the category summaries.
fn copy_results(rs: &Vec<CategoryResult>) -> (r: Vec<CategoryResult>)
    ensures
        r@ == rs@,
{
    let mut out: Vec<CategoryResult> = Vec::new();
    let mut i: usize = 0;
    while i < rs.len()
        invariant
            i <= rs.len(),
            out@ == rs@.take(i as int),
        decreases rs.len() - i,
    {
        out.push(rs[i].copy());
        assert(rs@.take(i + 1) =~= rs@.take(i as int).push(rs@[i as int]));
        i = i + 1;
    }
    assert(rs@.take(rs.len() as int) =~= rs@);
    out
}

/// The result of a category scan; `会话不存在` when there is no session under
/// that id. It counts as cancelled when its cancel flag is set (the flag
/// outlives the scan), or, without a flag, when it was cancelled while running.
pub fn get_scan_result(state: &AppState, session_id: u32) -> (r: Result<ScanResultDto, String>)
    requires
        state.wf(),
    ensures
        match r {
            Ok(d) => state.sessions.at(session_id) is Some && ({
                let s = state.sessions.at(session_id).unwrap();
                &&& d.session_id == s.id && d.drive == s.drive && d.done == s.done
                &&& d.results@ == s.results@
                &&& d.cancelled == match state.cancels.at(session_id) {
                    Some(c) => c,
                    None => s.cancelled,
                }
            }),
            Err(e) => state.sessions.at(session_id) is None && e@ == "会话不存在"@,
        },
{
    match state.sessions.get(session_id) {
        Some(s) => {
            let cancelled = match state.cancels.get(session_id) {
                Some(c) => *c,
                None => s.cancelled,
            };
            Ok(ScanResultDto {
                session_id: s.id,
                drive: s.drive.clone(),
                done: s.done,
                cancelled,
                results: copy_results(&s.results),
            })
        },
        None => Err("会话不存在".to_string()),
    }
}

/// The result of a large-file scan; `扫描会话不存在` when there is none under that id.
pub fn get_large_scan_result(state: &AppState, session_id: u32) -> (r: Result<LargeScanSession, String>)
    requires
        state.wf(),
    ensures
        match r {
            Ok(s) => state.big_sessions.at(session_id) is Some
                && large_parts(s) == large_parts(state.big_sessions.at(session_id).unwrap()),
            Err(e) => state.big_sessions.at(session_id) is None && e@ == "扫描会话不存在"@,
        },
{
    match crate::bigfiles::get_result(state, session_id) {
        Some(s) => Ok(s),
        None => Err("扫描会话不存在".to_string()),
    }
}

/// The result of a duplicate scan; `扫描会话不存在` when there is none under that id.
pub fn get_dupe_scan_result(state: &AppState, session_id: u32) -> (r: Result<DupeScanSession, String>)
    requires
        state.wf(),
    ensures
        match r {
            Ok(s) => state.dupe_sessions.at(session_id) is Some
                && dupe_session_parts(s) == dupe_session_parts(state.dupe_sessions.at(session_id).unwrap()),
            Err(e) => state.dupe_sessions.at(session_id) is None && e@ == "扫描会话不存在"@,
        },
{
    match crate::dupes::get_result(state, session_id) {
        Some(s) => Ok(s),
        None => Err("扫描会话不存在".to_string()),
    }
}

} // verus!
