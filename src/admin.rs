//! The dispatcher's administrative requests: submit, delete, status, with
//! authority taken from the peer's credentials.
use vstd::prelude::*;

use crate::group::{added, first_named, group_clear_of_drawn_ids, pending_anywhere, group_wf, refused, removal, GroupSpec, QueueGroup};
use crate::queue::{admits, id_in_use};
use crate::util::fresh_task_id;
use crate::jobs::{JobConfiguration, JobSpec};

verus! {

/// A request on the administrative socket.
pub enum ClientRequest {
    /// Submit a job to the named queue.
    SubmitJob(String, JobConfiguration),
    /// Delete a pending job by task id.
    DeleteJob(String),
    Status,
}

/// Why a deletion failed.
#[derive(Clone, Copy)]
pub enum DispatcherFailReasons {
    PermissionDenied,
    NotFound,
}

/// The answer to a request.
pub enum DispatcherResponse {
    InvalidRequest,
    SubmitSuccess(String),
    SubmitFailed,
    DeleteSuccess,
    DeleteFailed(DispatcherFailReasons),
    Status,
}

/// The job as the dispatcher records it for a peer with credentials
/// `uid`/`gid`: anyone but the superuser submits as themselves.
pub open spec fn submitted_as(job: JobSpec, uid: u32, gid: u32) -> JobSpec {
    if uid != 0 {
        JobSpec { uid, gid, ..job }
    } else {
        job
    }
}

/// Handles one request from a peer whose credentials are `peer`
/// (`(uid, gid)`, `None` where they could not be read); a submitted job gets
/// the id `task_id`.
pub fn handle_request_with_id(
    group: &mut QueueGroup,
    request: ClientRequest,
    peer: Option<(u32, u32)>,
    task_id: String,
) -> (r: DispatcherResponse)
    requires
        group_wf(old(group)@),
    ensures
        group_wf(final(group)@),
        peer is None ==> r is InvalidRequest && final(group)@ == old(group)@,
        peer matches Some((uid, gid)) ==> match request {
            ClientRequest::SubmitJob(queue, job) => {
                &&& r is SubmitSuccess <==> exists|i: int|
                    first_named(old(group)@, queue@, i) && admits(
                        old(group)@[i].1.config,
                        submitted_as(job@, uid, gid),
                    ) && !id_in_use(old(group)@[i].1, task_id@) && !pending_anywhere(old(group)@, task_id@)
                &&& r is SubmitFailed ==> final(group)@ == old(group)@
                &&& r is SubmitSuccess || r is SubmitFailed
                &&& r matches DispatcherResponse::SubmitSuccess(id) ==> id@ == task_id@ && added(
                    old(group)@,
                    final(group)@,
                    queue@,
                    submitted_as(job@, uid, gid),
                    id@,
                )
            },
            ClientRequest::DeleteJob(id) => deleted(old(group)@, final(group)@, id@, uid, r),
            ClientRequest::Status => r is Status && final(group)@ == old(group)@,
        },
{
    let (uid, gid) = match peer {
        Some(p) => p,
        None => {
            return DispatcherResponse::InvalidRequest;
        },
    };
    match request {
        ClientRequest::SubmitJob(queue, job) => {
            let mut job = job;
            if uid != 0 {
                job.uid = uid;
                job.gid = gid;
            }
            match group.add_with_id(queue.as_str(), &job, task_id) {
                Ok(id) => DispatcherResponse::SubmitSuccess(id),
                Err(()) => DispatcherResponse::SubmitFailed,
            }
        },
        ClientRequest::DeleteJob(id) => delete(group, id, uid),
        ClientRequest::Status => DispatcherResponse::Status,
    }
}

/// The outcome of a deletion request by user `uid`, as a response.
pub open spec fn deleted(g: GroupSpec, g2: GroupSpec, id: Seq<char>, uid: u32, r: DispatcherResponse) -> bool {
    exists|res: Option<Result<(), ()>>| {
        &&& removal(g, g2, id, uid, res)
        &&& match res {
            None => r == DispatcherResponse::DeleteFailed(DispatcherFailReasons::NotFound),
            Some(Ok(())) => r is DeleteSuccess,
            Some(Err(())) => r == DispatcherResponse::DeleteFailed(
                DispatcherFailReasons::PermissionDenied,
            ),
        }
    }
}

fn delete(group: &mut QueueGroup, id: String, uid: u32) -> (r: DispatcherResponse)
    requires
        group_wf(old(group)@),
    ensures
        group_wf(final(group)@),
        deleted(old(group)@, final(group)@, id@, uid, r),
{
    match group.remove_job(id.as_str(), uid) {
        None => DispatcherResponse::DeleteFailed(DispatcherFailReasons::NotFound),
        Some(Ok(())) => DispatcherResponse::DeleteSuccess,
        Some(Err(())) => DispatcherResponse::DeleteFailed(DispatcherFailReasons::PermissionDenied),
    }
}

/// Handles one request as `handle_request_with_id` does, a submitted job
/// getting a fresh random id.
pub fn handle_request(group: &mut QueueGroup, request: ClientRequest, peer: Option<(u32, u32)>) -> (r: DispatcherResponse)
    requires
        group_wf(old(group)@),
    ensures
        group_wf(final(group)@),
        peer is None ==> r is InvalidRequest && final(group)@ == old(group)@,
        peer matches Some((uid, gid)) ==> match request {
            ClientRequest::SubmitJob(queue, job) => {
                &&& refused(old(group)@, queue@, submitted_as(job@, uid, gid)) ==> r is SubmitFailed
                &&& forall|i: int|
                    first_named(old(group)@, queue@, i) && admits(
                        old(group)@[i].1.config,
                        submitted_as(job@, uid, gid),
                    ) && group_clear_of_drawn_ids(old(group)@) ==> r is SubmitSuccess
                &&& r is SubmitFailed ==> final(group)@ == old(group)@
                &&& r is SubmitSuccess || r is SubmitFailed
                &&& r matches DispatcherResponse::SubmitSuccess(id) ==> added(
                    old(group)@,
                    final(group)@,
                    queue@,
                    submitted_as(job@, uid, gid),
                    id@,
                )
            },
            ClientRequest::DeleteJob(id) => deleted(old(group)@, final(group)@, id@, uid, r),
            ClientRequest::Status => r is Status && final(group)@ == old(group)@,
        },
{
    let id = fresh_task_id();
    handle_request_with_id(group, request, peer, id)
}

} // verus!
