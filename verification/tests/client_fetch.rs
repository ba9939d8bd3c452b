use steamer::client::{Api, ApiError, ApiResponse, ApiResult, FetchPlan, RateLimiter,
    request_url};
use steamer::record::{AppDetails, Requirements};
use steamer::store::Cache;

fn sample_record(id: i64, name: &str) -> AppDetails {
    AppDetails {
        id,
        name: String::from(name),
        is_free: false,
        short_description: String::from("short"),
        pc_requirements: Requirements { minimum: None, recommended: None },
    }
}

fn success_response(id: u64, rec: AppDetails) -> ApiResponse {
    ApiResponse { entries: vec![(id, ApiResult { success: true, data: Some(rec) })] }
}

#[test]
fn url_names_the_identifier_and_locale() {
    assert_eq!(
        request_url(42),
        "https://store.steampowered.com/api/appdetails?appids=42&l=en"
    );
    assert_eq!(
        request_url(0),
        "https://store.steampowered.com/api/appdetails?appids=0&l=en"
    );
    assert_eq!(
        request_url(1234567890),
        "https://store.steampowered.com/api/appdetails?appids=1234567890&l=en"
    );
}

#[test]
fn cached_identifier_plans_no_fetch() {
    let mut c = Cache::empty();
    c.insert(7, sample_record(7, "seven"));
    let mut api = Api::new(c);
    assert_eq!(api.plan(7, 1000), FetchPlan::Hit);
    assert_eq!(api.get_cached(7), Some(&sample_record(7, "seven")));
}

#[test]
fn fresh_identifier_plans_exactly_one_fetch_and_persists() {
    let mut api = Api::new(Cache::empty());
    let plan = api.plan(42, 1000);
    match plan {
        FetchPlan::Fetch { wait_ms, url } => {
            assert_eq!(wait_ms, 0);
            assert_eq!(url, request_url(42));
        },
        FetchPlan::Hit => panic!("a fresh identifier must be fetched"),
    }
    let resp = success_response(42, sample_record(42, "answer"));
    assert_eq!(api.apply_response(42, &resp), Ok(()));
    assert_eq!(api.get_cached(42), Some(&sample_record(42, "answer")));
    let on_disk = Cache::from_bytes(&api.store_bytes()).expect("persisted bytes load");
    assert_eq!(on_disk.get(42), Some(&sample_record(42, "answer")));
    assert_eq!(api.plan(42, 2000), FetchPlan::Hit);
}

#[test]
fn limiter_spaces_consecutive_grants() {
    let mut lim = RateLimiter::new(1000);
    assert_eq!(lim.acquire(5000), 0);
    assert_eq!(lim.acquire(5200), 800);
    assert_eq!(lim.acquire(6000), 1000);
    assert_eq!(lim.acquire(9500), 0);
}

#[test]
fn consecutive_misses_are_spaced_by_the_interval() {
    let mut api = Api::with_interval(Cache::empty(), 1000);
    let first = api.plan(1, 400);
    let second = api.plan(2, 700);
    let (w1, w2) = match (first, second) {
        (FetchPlan::Fetch { wait_ms: a, .. }, FetchPlan::Fetch { wait_ms: b, .. }) => (a, b),
        _ => panic!("both identifiers are fresh"),
    };
    assert_eq!(w1, 0);
    assert_eq!(w2, 700);
    assert!((700 + w2) - (400 + w1) >= 1000);
}

#[test]
fn hit_does_not_delay_the_next_miss() {
    let mut c = Cache::empty();
    c.insert(7, sample_record(7, "seven"));
    let mut api = Api::with_interval(c, 1000);
    assert_eq!(api.plan(7, 100), FetchPlan::Hit);
    match api.plan(8, 150) {
        FetchPlan::Fetch { wait_ms, .. } => assert_eq!(wait_ms, 0),
        FetchPlan::Hit => panic!("identifier 8 is fresh"),
    }
}

#[test]
fn remote_failure_is_reported_and_not_inserted() {
    let mut api = Api::new(Cache::empty());
    let resp = ApiResponse { entries: vec![(42, ApiResult { success: false, data: None })] };
    assert_eq!(api.apply_response(42, &resp), Err(ApiError::RemoteFailure));
    assert_eq!(api.get_cached(42), None);
    match api.plan(42, 1000) {
        FetchPlan::Fetch { .. } => {},
        FetchPlan::Hit => panic!("a failed resolution must not populate the store"),
    }
}

#[test]
fn missing_entry_is_reported() {
    let mut api = Api::new(Cache::empty());
    let resp = success_response(43, sample_record(43, "other"));
    assert_eq!(api.apply_response(42, &resp), Err(ApiError::MissingEntry));
    assert_eq!(api.get_cached(42), None);
}

#[test]
fn missing_payload_is_reported() {
    let mut api = Api::new(Cache::empty());
    let resp = ApiResponse { entries: vec![(42, ApiResult { success: true, data: None })] };
    assert_eq!(api.apply_response(42, &resp), Err(ApiError::MissingPayload));
    assert_eq!(api.get_cached(42), None);
}

#[test]
fn successful_resolution_survives_in_the_same_run() {
    let mut api = Api::new(Cache::empty());
    let resp = success_response(42, sample_record(42, "answer"));
    assert_eq!(api.apply_response(42, &resp), Ok(()));
    assert_eq!(api.plan(42, 5000), FetchPlan::Hit);
    assert_eq!(api.get_cached(42).map(|r| r.id), Some(42));
}
