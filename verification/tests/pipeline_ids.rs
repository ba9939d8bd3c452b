use steamer::client::{Api, ApiResponse, ApiResult, FetchPlan};
use steamer::pipeline::{collect_ids, dedup_ids, prepare_ids, Library};
use steamer::record::{AppDetails, Requirements};
use steamer::store::Cache;

fn sample_record(id: i64) -> AppDetails {
    AppDetails {
        id,
        name: format!("item {id}"),
        is_free: false,
        short_description: String::new(),
        pc_requirements: Requirements { minimum: None, recommended: None },
    }
}

#[test]
fn duplicates_collapse_to_the_set() {
    let ids = vec![5u64, 3, 5, 1, 3];
    assert_eq!(dedup_ids(&ids), vec![1u64, 3, 5]);
}

#[test]
fn dedup_of_empty_is_empty() {
    assert_eq!(dedup_ids(&Vec::new()), Vec::<u64>::new());
}

#[test]
fn manifest_folders_flatten_into_one_sequence() {
    let libs = vec![
        Library { apps: vec![(5, 100), (3, 200)] },
        Library { apps: vec![] },
        Library { apps: vec![(5, 100), (1, 50), (3, 9)] },
    ];
    let mut flat = collect_ids(&libs);
    flat.sort();
    assert_eq!(flat, vec![1u64, 3, 3, 5, 5]);
    assert_eq!(dedup_ids(&collect_ids(&libs)), vec![1u64, 3, 5]);
}

#[test]
fn prepared_ids_are_a_permutation_of_the_set() {
    let ids = vec![5u64, 3, 5, 1, 3];
    let mut prepared = prepare_ids(&ids);
    prepared.sort();
    assert_eq!(prepared, vec![1u64, 3, 5]);
}

#[test]
fn one_failure_does_not_stop_the_batch() {
    let mut api = Api::new(Cache::empty());
    let batch: Vec<(u64, ApiResponse)> = vec![
        (1, ApiResponse { entries: vec![(1, ApiResult { success: true, data: Some(sample_record(1)) })] }),
        (2, ApiResponse { entries: vec![(2, ApiResult { success: false, data: None })] }),
        (3, ApiResponse { entries: vec![(3, ApiResult { success: true, data: Some(sample_record(3)) })] }),
    ];
    let mut outcomes = Vec::new();
    let mut now = 0u64;
    for (id, resp) in &batch {
        match api.plan(*id, now) {
            FetchPlan::Hit => outcomes.push((*id, Ok(()))),
            FetchPlan::Fetch { wait_ms, .. } => {
                now += wait_ms;
                outcomes.push((*id, api.apply_response(*id, resp)));
            },
        }
    }
    assert_eq!(outcomes.len(), 3);
    assert!(outcomes[0].1.is_ok());
    assert!(outcomes[1].1.is_err());
    assert!(outcomes[2].1.is_ok());
    assert_eq!(api.get_cached(1), Some(&sample_record(1)));
    assert_eq!(api.get_cached(2), None);
    assert_eq!(api.get_cached(3), Some(&sample_record(3)));
}
