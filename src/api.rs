//! The requests that a service puts to the tree and the responses it gets
//! back, already parsed; their wire encoding is left to the front end.
use vstd::prelude::*;
use std::sync::Arc;
use crate::address::{Distance, NodeAddress};

verus! {

/// Asks for the tree's parameters.
#[derive(Debug, Clone)]
pub struct ParametersRequest {}

/// Asks for the `k` nearest points to `point`.
#[derive(Debug, Clone)]
pub struct KnnRequest<T> {
    pub k: usize,
    pub point: T,
}

/// Asks for the `k` nearest node centers to `point`.
#[derive(Debug, Clone)]
pub struct RoutingKnnRequest<T> {
    pub k: usize,
    pub point: T,
}

/// Asks for the path from the root to the node that `point` belongs to.
#[derive(Debug, Clone)]
pub struct PathRequest<T> {
    pub point: T,
}

/// Tracks a point.
#[derive(Debug, Clone)]
pub struct TrackPointRequest<T> {
    pub point: T,
}

/// Tracks a path that was already computed.
#[derive(Debug, Clone)]
pub struct TrackPathRequest {
    pub path: Vec<(Distance, NodeAddress)>,
}

/// Adds a tracker over a window of the given size.
#[derive(Debug, Clone)]
pub struct AddTrackerRequest {
    pub window_size: usize,
}

/// Asks for the statistics of a tracker's window.
#[derive(Debug, Clone)]
pub struct CurrentStatsRequest {
    pub window_size: usize,
}

/// A request to the tree.
#[derive(Debug, Clone)]
pub enum GokoRequest<T> {
    /// The tree's parameters.
    Parameters(ParametersRequest),
    /// The nearest points.
    Knn(KnnRequest<T>),
    /// The nearest node centers.
    RoutingKnn(RoutingKnnRequest<T>),
    /// The path of a point.
    Path(PathRequest<T>),
    /// A request for a tracker.
    Tracking(TrackingRequest<T>),
    /// A request that could not be parsed: a message and a status code.
    Unknown(String, u16),
}

/// A request for the tracker named `tracker_name`, or for the main tracker.
#[derive(Debug, Clone)]
pub struct TrackingRequest<T> {
    pub tracker_name: Option<String>,
    pub request: TrackingRequestChoice<T>,
}

/// What is asked of a tracker.
#[derive(Debug, Clone)]
pub enum TrackingRequestChoice<T> {
    TrackPoint(TrackPointRequest<T>),
    TrackPath(TrackPathRequest),
    AddTracker(AddTrackerRequest),
    CurrentStats(CurrentStatsRequest),
}

/// The tree's parameters.
#[derive(Debug, Clone)]
pub struct ParametersResponse {
    pub min_scale: i32,
    pub max_scale: i32,
    /// The number of nodes of each layer, by scale index.
    pub node_counts: Vec<(i32, usize)>,
}

/// A point and its distance from the query.
#[derive(Debug, Clone)]
pub struct NamedDistance {
    pub name: String,
    pub distance: Distance,
}

/// A node center and its distance from the query.
#[derive(Debug, Clone)]
pub struct NodeDistance<L> {
    pub name: String,
    pub layer: i32,
    pub distance: Distance,
    pub label_summary: Option<L>,
}

/// The nearest points, closest first.
#[derive(Debug, Clone)]
pub struct KnnResponse {
    pub targets: Vec<NamedDistance>,
}

/// The nearest node centers, closest first.
#[derive(Debug, Clone)]
pub struct RoutingKnnResponse {
    pub routing_nbrs: Vec<NamedDistance>,
}

/// The path from the root, root first.
#[derive(Debug, Clone)]
pub struct PathResponse<L> {
    pub path: Vec<NodeDistance<L>>,
}

/// Whether a path was tracked.
#[derive(Debug, Clone)]
pub struct TrackPathResponse {
    pub success: bool,
}

/// Whether a tracker was added.
#[derive(Debug, Clone)]
pub struct AddTrackerResponse {
    pub success: bool,
}

/// The statistics of a tracker's window.
#[derive(Debug, Clone)]
pub struct CurrentStatsResponse {
    pub window_size: usize,
    pub count: usize,
}

/// The answer to a request.
#[derive(Debug, Clone)]
pub enum GokoResponse<L> {
    Parameters(ParametersResponse),
    Knn(KnnResponse),
    RoutingKnn(RoutingKnnResponse),
    Path(PathResponse<L>),
    Tracking(TrackingResponse),
    /// Passed through from an unknown request: a message and a status code.
    Unknown(String, u16),
}

/// The answer of a tracker.
#[derive(Debug, Clone)]
pub enum TrackingResponse {
    TrackPath(TrackPathResponse),
    AddTracker(AddTrackerResponse),
    CurrentStats(CurrentStatsResponse),
    /// No tracker by that name: the name asked for, and no count.
    Unknown(Option<String>, Option<usize>),
}

/// Where a tracking request goes.
#[derive(Debug, Clone, PartialEq, Eq)]
pub enum TrackerRoute {
    /// Create the named tracker if it is missing, then hand it the request.
    AddThenNamed(String),
    /// Hand the request to the named tracker, if there is one.
    Named(String),
    /// Hand the request to the main tracker.
    Main,
}

/// Routes a tracking request: a named request goes to its tracker (created
/// first when the request adds a tracker), an unnamed one to the main tracker.
pub fn route_tracking<T>(request: &TrackingRequest<T>) -> (r: TrackerRoute)
    ensures
        match request.tracker_name {
            None => r == TrackerRoute::Main,
            Some(name) => match request.request {
                TrackingRequestChoice::AddTracker(_) => r == TrackerRoute::AddThenNamed(name),
                _ => r == TrackerRoute::Named(name),
            },
        },
{
    match &request.tracker_name {
        Some(name) => match &request.request {
            TrackingRequestChoice::AddTracker(_) => TrackerRoute::AddThenNamed(name.clone()),
            _ => TrackerRoute::Named(name.clone()),
        },
        None => TrackerRoute::Main,
    }
}

/// The answer to an unknown request: its message and status, passed through.
/// Other requests are answered by the tree and the trackers.
pub fn passthrough_response<T, L>(request: &GokoRequest<T>) -> (r: Option<GokoResponse<L>>)
    ensures
        match request {
            GokoRequest::Unknown(m, s) => r matches Some(GokoResponse::Unknown(rm, rs)) && rm@ == m@ && rs
                == s,
            _ => r is None,
        },
{
    match request {
        GokoRequest::Unknown(message, status) => Some(GokoResponse::Unknown(message.clone(), *status)),
        _ => None,
    }
}

/// Makes one service per connection, each reading from the same tree writer.
pub struct MakeGokoHttp<W> {
    writer: Arc<W>,
}

impl<W> MakeGokoHttp<W> {
    /// The shared writer.
    pub closed spec fn writer_spec(&self) -> Arc<W> {
        self.writer
    }

    /// A maker over `writer`.
    pub fn new(writer: Arc<W>) -> (r: MakeGokoHttp<W>)
        ensures
            r.writer_spec() == writer,
    {
        MakeGokoHttp { writer }
    }

    /// The shared writer.
    pub fn writer(&self) -> (r: &Arc<W>)
        ensures
            *r == self.writer_spec(),
    {
        &self.writer
    }
}

} // verus!
