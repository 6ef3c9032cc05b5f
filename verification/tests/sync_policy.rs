use chronicle::sync::{github_response_step, webdav_response_step, ResponseStep};
use chronicle::sync::{RequestPolicy, Transfer, TransferDirection, TriggerDecision, TriggerGate};

#[test]
fn default_policy_bounds_all_remote_work() {
    let policy = RequestPolicy::default();
    let metadata = [1, 2, 3, 4, 5];
    assert!(policy
        .metadata_batches(&metadata)
        .iter()
        .all(|batch| batch.len() <= 2));

    let transfers = (0..5)
        .map(|index| Transfer {
            object_key: format!("{index}.7z"),
            size_bytes: 1,
            direction: if index % 2 == 0 {
                TransferDirection::Upload
            } else {
                TransferDirection::Download
            },
        })
        .collect::<Vec<_>>();
    assert!(policy
        .transfer_batches(&transfers)
        .iter()
        .all(|batch| batch.len() <= 2));
}

#[test]
fn temporary_failures_back_off_and_honor_server_delay() {
    let policy = RequestPolicy::default();
    assert_eq!(policy.retry_delay_ms(503, 0, Some(8_000), 0), Some(8_000));
    assert_eq!(policy.retry_delay_ms(503, 1, None, 0), Some(2_000));
    assert_eq!(policy.retry_delay_ms(404, 0, None, 0), None);
    assert_eq!(policy.retry_delay_ms(503, 5, None, 0), None);
}

#[test]
fn repeated_triggers_create_only_one_follow_up_pass() {
    let mut gate = TriggerGate::default();
    assert_eq!(gate.request(), TriggerDecision::Start);
    assert_eq!(gate.request(), TriggerDecision::Coalesced);
    assert_eq!(gate.request(), TriggerDecision::Coalesced);
    assert!(gate.finish_pass());
    assert!(!gate.finish_pass());
}

#[test]
fn batches_keep_every_item_in_order() {
    let policy = RequestPolicy {
        max_concurrent_metadata_reads: 0,
        ..RequestPolicy::default()
    };
    let items = [1, 2, 3];
    let batches = policy.metadata_batches(&items);
    assert_eq!(batches, vec![&[1][..], &[2][..], &[3][..]]);
    let wide = RequestPolicy {
        max_concurrent_metadata_reads: 2,
        ..RequestPolicy::default()
    };
    assert_eq!(wide.metadata_batches(&items), vec![&[1, 2][..], &[3][..]]);
    let empty: [u8; 0] = [];
    assert!(wide.metadata_batches(&empty).is_empty());
}

#[test]
fn backoff_is_capped_jittered_and_saturating() {
    let policy = RequestPolicy::default();
    // 1000 * 2^4 = 16000 stays under the cap; jitter is 7 % (4000 + 1) = 7.
    assert_eq!(policy.retry_delay_ms(429, 4, None, 7), Some(16_007));
    let long = RequestPolicy {
        retry_limit: 200,
        base_retry_delay_ms: u64::MAX,
        max_retry_delay_ms: u64::MAX,
        ..RequestPolicy::default()
    };
    assert_eq!(long.retry_delay_ms(500, 100, None, 3), Some(u64::MAX));
    assert_eq!(policy.retry_delay_ms(408, 0, Some(10), 0), Some(1_000));
}

#[test]
fn finishing_an_idle_gate_reports_no_follow_up() {
    let mut gate = TriggerGate::default();
    assert!(!gate.finish_pass());
    assert_eq!(gate.request(), TriggerDecision::Start);
    assert!(!gate.finish_pass());
    assert_eq!(gate.request(), TriggerDecision::Start);
}

#[test]
fn responses_end_retry_or_fail_as_each_protocol_requires() {
    let policy = RequestPolicy::default();
    assert_eq!(webdav_response_step(&policy, false, 207, 0, None), ResponseStep::Done);
    assert_eq!(webdav_response_step(&policy, true, 405, 0, None), ResponseStep::Done);
    assert_eq!(webdav_response_step(&policy, false, 405, 0, None), ResponseStep::Fail);
    assert_eq!(webdav_response_step(&policy, false, 404, 0, None), ResponseStep::NotFound);
    assert_eq!(
        webdav_response_step(&policy, false, 503, 0, Some(3)),
        ResponseStep::Retry(3_000)
    );
    assert_eq!(webdav_response_step(&policy, false, 503, 5, None), ResponseStep::Fail);
    assert_eq!(github_response_step(&policy, 200, 0), ResponseStep::Done);
    assert_eq!(github_response_step(&policy, 429, 2), ResponseStep::Retry(800));
    assert_eq!(github_response_step(&policy, 502, 5), ResponseStep::Fail);
    assert_eq!(github_response_step(&policy, 422, 0), ResponseStep::Fail);
}
