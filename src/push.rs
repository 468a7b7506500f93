use vstd::prelude::*;
use vstd::string::StringExecFns;

verus! {

/// The node currently assigned to serve a realtime feed's partition.
#[derive(Clone, Debug)]
pub struct AssignedNode {
    pub chateau_id: String,
    pub worker_id: String,
    pub socket: String,
}

/// The payload of a "submit realtime payload" call: the feed bytes twice, as
/// vehicle and trip variants, with their validity flags and the submission
/// time in milliseconds.
#[derive(Clone, Debug)]
pub struct RealtimeSubmission {
    pub chateau_id: String,
    pub feed_id: String,
    pub vehicles: Option<Vec<u8>>,
    pub trips: Option<Vec<u8>>,
    pub alerts: Option<Vec<u8>>,
    pub has_vehicles: bool,
    pub has_trips: bool,
    pub has_alerts: bool,
    pub vehicles_response_code: Option<u16>,
    pub trips_response_code: Option<u16>,
    pub alerts_response_code: Option<u16>,
    pub time_of_submission_ms: u64,
}

/// What the push path does for one feed.
#[derive(Clone, Debug)]
pub enum PushAction {
    /// No node is assigned to the feed: nothing is fetched or sent.
    NoAssignedNode,
    /// The upstream fetch failed: nothing is sent, and nothing is retried.
    FetchFailed,
    /// Send this submission to the assigned node.
    Submit { socket: String, submission: RealtimeSubmission },
}

fn copy_bytes(b: &Vec<u8>) -> (r: Vec<u8>)
    ensures
        r@ == b@,
{
    let mut out: Vec<u8> = Vec::new();
    let mut i: usize = 0;
    while i < b.len()
        invariant
            0 <= i <= b@.len(),
            out@ == b@.subrange(0, i as int),
        decreases b@.len() - i,
    {
        out.push(b[i]);
        i = i + 1;
    }
    assert(out@ =~= b@);
    out
}

/// Decides the push of one feed from its node lookup and, where a node was
/// found, the outcome of the upstream fetch.
pub fn plan_push(feed_id: &String, node: &Option<AssignedNode>, fetched: &Option<Vec<u8>>, now_ms: u64) -> (r: PushAction)
    ensures
        node is None ==> r is NoAssignedNode,
        node is Some && fetched is None ==> r is FetchFailed,
        node is Some && fetched is Some ==> (r matches PushAction::Submit { socket, submission } && {
            &&& socket == node.unwrap().socket
            &&& submission.chateau_id == node.unwrap().chateau_id
            &&& submission.feed_id == *feed_id
            &&& submission.vehicles matches Some(v) && v@ == fetched.unwrap()@
            &&& submission.trips matches Some(t) && t@ == fetched.unwrap()@
            &&& submission.alerts is None
            &&& submission.has_vehicles && submission.has_trips && !submission.has_alerts
            &&& submission.vehicles_response_code == Some(200u16)
            &&& submission.trips_response_code == Some(200u16)
            &&& submission.alerts_response_code is None
            &&& submission.time_of_submission_ms == now_ms
        }),
{
    match node {
        None => PushAction::NoAssignedNode,
        Some(n) => match fetched {
            None => PushAction::FetchFailed,
            Some(payload) => PushAction::Submit {
                socket: n.socket.clone(),
                submission: RealtimeSubmission {
                    chateau_id: n.chateau_id.clone(),
                    feed_id: feed_id.clone(),
                    vehicles: Some(copy_bytes(payload)),
                    trips: Some(copy_bytes(payload)),
                    alerts: None,
                    has_vehicles: true,
                    has_trips: true,
                    has_alerts: false,
                    vehicles_response_code: Some(200),
                    trips_response_code: Some(200),
                    alerts_response_code: None,
                    time_of_submission_ms: now_ms,
                },
            },
        },
    }
}

/// The coordination-registry key under which a partition's authority
/// assignment is stored.
pub fn authority_key(partition_id: &str) -> (r: String)
    ensures
        r@ == "/authority_assignment/"@ + partition_id@,
{
    let mut key = String::from_str("/authority_assignment/");
    key.append(partition_id);
    key
}

} // verus!
