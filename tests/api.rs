use goko::api::{
    passthrough_response, route_tracking, AddTrackerRequest, CurrentStatsRequest, GokoRequest,
    GokoResponse, KnnRequest, MakeGokoHttp, TrackerRoute, TrackingRequest, TrackingRequestChoice,
};
use std::sync::Arc;

#[test]
fn tracking_requests_are_routed_by_name() {
    let add: TrackingRequest<Vec<u8>> = TrackingRequest {
        tracker_name: Some("a".to_string()),
        request: TrackingRequestChoice::AddTracker(AddTrackerRequest { window_size: 10 }),
    };
    assert_eq!(route_tracking(&add), TrackerRoute::AddThenNamed("a".to_string()));
    let stats: TrackingRequest<Vec<u8>> = TrackingRequest {
        tracker_name: Some("b".to_string()),
        request: TrackingRequestChoice::CurrentStats(CurrentStatsRequest { window_size: 10 }),
    };
    assert_eq!(route_tracking(&stats), TrackerRoute::Named("b".to_string()));
    let main: TrackingRequest<Vec<u8>> = TrackingRequest {
        tracker_name: None,
        request: TrackingRequestChoice::AddTracker(AddTrackerRequest { window_size: 10 }),
    };
    assert_eq!(route_tracking(&main), TrackerRoute::Main);
}

#[test]
fn unknown_requests_pass_through() {
    let req: GokoRequest<Vec<u8>> = GokoRequest::Unknown("bad body".to_string(), 400);
    match passthrough_response::<Vec<u8>, ()>(&req) {
        Some(GokoResponse::Unknown(m, s)) => {
            assert_eq!(m, "bad body");
            assert_eq!(s, 400);
        }
        _ => panic!("expected a passthrough"),
    }
    let knn: GokoRequest<Vec<u8>> = GokoRequest::Knn(KnnRequest { k: 3, point: vec![1] });
    assert!(passthrough_response::<Vec<u8>, ()>(&knn).is_none());
}

#[test]
fn maker_shares_the_writer() {
    let w = Arc::new(17u32);
    let maker = MakeGokoHttp::new(w.clone());
    assert!(Arc::ptr_eq(maker.writer(), &w));
}
