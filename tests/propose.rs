use dogsdogsdogs::frontier::less_equal;
use dogsdogsdogs::history::{count_as_of, seek_key, KeyHistory, ValHistory};
use dogsdogsdogs::operator::Proposer;
use dogsdogsdogs::propose::{process_bucket, product_fits_check, propose_request, Proposal, Request};

fn req(prefix: u32, key: u64, time: u64, diff: i64) -> Request<u32> {
    Request { prefix, key, time, diff }
}

fn hist(val: u32, updates: Vec<(u64, i64)>) -> ValHistory<u32> {
    ValHistory { val, updates }
}

fn sum_for(out: &[(u64, Proposal<u32, u32>)], prefix: u32, val: u32) -> i64 {
    out.iter()
        .filter(|(_, p)| p.prefix == prefix && p.val == val)
        .map(|(_, p)| p.diff)
        .sum()
}

fn scenario_trace() -> Vec<KeyHistory<u32>> {
    vec![KeyHistory { key: 7, vals: vec![hist(10, vec![(0, 1), (2, 1)])] }]
}

#[test]
fn scenario_counts_only_updates_up_to_request_time() {
    let mut op: Proposer<u32> = Proposer::new();
    op.stash_requests(1, &vec![req(1, 7, 1, 1)]);
    let out = op.process_round(false, &vec![2], &scenario_trace()).unwrap();
    assert_eq!(out.len(), 1);
    let (cap, p) = out[0];
    assert_eq!(cap, 1);
    assert_eq!((p.prefix, p.val, p.time, p.diff), (1, 10, 1, 1));
    assert!(op.stash_is_empty());
    assert!(op.holds_trace());
}

#[test]
fn scenario_retraction_before_closing_cancels() {
    let mut op: Proposer<u32> = Proposer::new();
    op.stash_requests(1, &vec![req(1, 7, 1, 1)]);
    let early = op.process_round(false, &vec![1], &scenario_trace()).unwrap();
    assert!(early.is_empty());
    op.stash_requests(1, &vec![req(1, 7, 1, -1)]);
    assert!(op.stash_is_empty());
    let out = op.process_round(false, &vec![2], &scenario_trace()).unwrap();
    assert!(out.is_empty());
    assert!(op.stash_is_empty());
}

#[test]
fn equal_requests_merge_into_one() {
    let mut op: Proposer<u32> = Proposer::new();
    op.stash_requests(1, &vec![req(1, 7, 1, 2), req(2, 7, 1, 1)]);
    op.stash_requests(1, &vec![req(1, 7, 1, 3), req(2, 7, 1, -1)]);
    let out = op.process_round(false, &vec![2], &scenario_trace()).unwrap();
    assert_eq!(out.len(), 1);
    assert_eq!((out[0].1.prefix, out[0].1.diff), (1, 5));
}

#[test]
fn merge_keeps_sums_in_range() {
    let mut entries = vec![req(1, 7, 1, i64::MAX)];
    dogsdogsdogs::consolidate::merge_request(&mut entries, req(1, 7, 1, 1));
    assert_eq!(entries.len(), 2);
    dogsdogsdogs::consolidate::merge_request(&mut entries, req(1, 7, 1, -1));
    assert_eq!(entries.len(), 1);
    assert_eq!(entries[0].diff, i64::MAX);
    dogsdogsdogs::consolidate::merge_request(&mut entries, req(1, 7, 2, 4));
    assert_eq!(entries.len(), 2);
}

#[test]
fn open_times_are_deferred() {
    let mut op: Proposer<u32> = Proposer::new();
    op.stash_requests(3, &vec![req(1, 7, 3, 1)]);
    let out = op.process_round(false, &vec![3], &scenario_trace()).unwrap();
    assert!(out.is_empty());
    assert!(!op.stash_is_empty());
    let out = op.process_round(false, &vec![4], &scenario_trace()).unwrap();
    assert_eq!(out.len(), 1);
    assert_eq!(out[0].1.diff, 2);
    assert_eq!(out[0].1.time, 3);
}

#[test]
fn empty_frontier_closes_every_time() {
    let mut op: Proposer<u32> = Proposer::new();
    op.stash_requests(5, &vec![req(2, 7, 9, 4)]);
    let out = op.process_round(false, &vec![], &scenario_trace()).unwrap();
    assert_eq!(out.len(), 1);
    assert_eq!(out[0].1.diff, 8);
}

#[test]
fn open_requests_under_a_closed_capability_stay() {
    let mut op: Proposer<u32> = Proposer::new();
    op.stash_requests(1, &vec![req(1, 7, 1, 1), req(2, 7, 5, 1)]);
    let out = op.process_round(false, &vec![3], &scenario_trace()).unwrap();
    assert_eq!(out.len(), 1);
    assert_eq!(out[0].1.prefix, 1);
    assert!(!op.stash_is_empty());
    let out = op.process_round(false, &vec![6], &scenario_trace()).unwrap();
    assert_eq!(out.len(), 1);
    assert_eq!((out[0].0, out[0].1.prefix, out[0].1.diff), (1, 2, 2));
    assert!(op.stash_is_empty());
}

#[test]
fn zero_multiplicity_requests_are_dropped() {
    let mut op: Proposer<u32> = Proposer::new();
    op.stash_requests(1, &vec![req(1, 7, 1, 0)]);
    assert!(op.stash_is_empty());
}

#[test]
fn missing_key_proposes_nothing() {
    let mut op: Proposer<u32> = Proposer::new();
    op.stash_requests(1, &vec![req(1, 8, 1, 1)]);
    let out = op.process_round(false, &vec![2], &scenario_trace()).unwrap();
    assert!(out.is_empty());
    assert!(op.stash_is_empty());
}

#[test]
fn products_combine_multiplicities() {
    let trace = vec![
        KeyHistory { key: 3, vals: vec![hist(1, vec![(0, 1)])] },
        KeyHistory {
            key: 7,
            vals: vec![hist(10, vec![(0, 2), (1, 3)]), hist(11, vec![(0, 1), (1, -1)]), hist(12, vec![(4, 5)])],
        },
    ];
    let mut op: Proposer<u32> = Proposer::new();
    op.stash_requests(2, &vec![req(9, 7, 2, -3)]);
    let out = op.process_round(false, &vec![3], &trace).unwrap();
    assert_eq!(out.len(), 1);
    assert_eq!((out[0].1.val, out[0].1.diff), (10, -15));
}

#[test]
fn buckets_are_kept_per_capability() {
    let mut op: Proposer<u32> = Proposer::new();
    op.stash_requests(1, &vec![req(1, 7, 1, 1)]);
    op.stash_requests(4, &vec![req(2, 7, 4, 1)]);
    op.stash_requests(1, &vec![req(3, 7, 1, 2)]);
    let out = op.process_round(false, &vec![2], &scenario_trace()).unwrap();
    assert_eq!(out.len(), 2);
    assert!(out.iter().all(|(cap, p)| *cap == 1 && p.time == 1));
    assert_eq!(sum_for(&out, 1, 10), 1);
    assert_eq!(sum_for(&out, 3, 10), 2);
    assert!(!op.stash_is_empty());
}

#[test]
fn trace_is_released_once_input_is_done_and_stash_empty() {
    let mut op: Proposer<u32> = Proposer::new();
    op.stash_requests(1, &vec![req(1, 7, 1, 1)]);
    let out = op.process_round(true, &vec![1], &scenario_trace()).unwrap();
    assert!(out.is_empty());
    assert!(op.holds_trace());
    let out = op.process_round(true, &vec![2], &scenario_trace()).unwrap();
    assert_eq!(out.len(), 1);
    assert!(!op.holds_trace());
    op.stash_requests(3, &vec![req(1, 7, 3, 1)]);
    let out = op.process_round(true, &vec![], &scenario_trace()).unwrap();
    assert!(out.is_empty());
    assert!(!op.holds_trace());
}

#[test]
fn overflowing_round_changes_nothing() {
    let trace = vec![KeyHistory { key: 7, vals: vec![hist(10, vec![(0, i64::MAX)])] }];
    let mut op: Proposer<u32> = Proposer::new();
    op.stash_requests(1, &vec![req(1, 7, 1, 2)]);
    assert!(op.process_round(false, &vec![2], &trace).is_none());
    assert!(!op.stash_is_empty());
    assert!(op.holds_trace());
    assert!(!op.round_fits_check(&vec![2], &trace));
    assert!(op.round_fits_check(&vec![1], &trace));
}

#[test]
fn frontier_less_equal() {
    assert!(less_equal(&vec![3, 5], 4));
    assert!(less_equal(&vec![3], 3));
    assert!(!less_equal(&vec![3], 2));
    assert!(!less_equal(&vec![], 0));
}

#[test]
fn count_filters_by_time() {
    let ups = vec![(0, 1), (2, 1), (1, -4), (5, 7)];
    assert_eq!(count_as_of(&ups, 0), 1);
    assert_eq!(count_as_of(&ups, 1), -3);
    assert_eq!(count_as_of(&ups, 4), -2);
    assert_eq!(count_as_of(&ups, 5), 5);
    assert_eq!(count_as_of(&vec![], 5), 0);
}

#[test]
fn seek_finds_the_key() {
    let trace = vec![
        KeyHistory { key: 1, vals: vec![] },
        KeyHistory { key: 4, vals: vec![hist(2, vec![])] },
    ];
    assert_eq!(seek_key(&trace, 4), Some(1));
    assert_eq!(seek_key(&trace, 1), Some(0));
    assert_eq!(seek_key(&trace, 3), None);
}

#[test]
fn product_bounds() {
    assert!(product_fits_check(&vec![(0, 3), (1, -4)], 1, 2));
    assert!(product_fits_check(&vec![(0, i64::MAX), (1, 1)], 0, 1));
    assert!(!product_fits_check(&vec![(0, i64::MAX), (1, 1)], 1, 1));
    assert!(product_fits_check(&vec![(0, i64::MAX), (1, 1)], 1, 0));
    assert!(product_fits_check(&vec![(0, i64::MIN)], 0, 1));
    assert!(!product_fits_check(&vec![(0, i64::MIN)], 0, -1));
    assert!(product_fits_check(&vec![(0, i64::MAX), (0, 1)], 0, -1));
    assert!(!product_fits_check(&vec![(0, 1 << 40)], 0, 1 << 30));
    assert!(product_fits_check(&vec![(5, 1 << 40)], 0, 1 << 30));
}

#[test]
fn later_updates_do_not_limit_a_round() {
    let trace = vec![KeyHistory { key: 7, vals: vec![hist(10, vec![(0, i64::MAX), (1, 1)])] }];
    let mut op: Proposer<u32> = Proposer::new();
    op.stash_requests(0, &vec![req(1, 7, 0, 1)]);
    let out = op.process_round(false, &vec![1], &trace).unwrap();
    assert_eq!(out.len(), 1);
    assert_eq!(out[0].1.diff, i64::MAX);
}

#[test]
fn request_and_bucket_helpers() {
    let vals = vec![hist(1, vec![(0, 2)]), hist(2, vec![(3, 1)])];
    let mut out: Vec<Proposal<u32, u32>> = Vec::new();
    propose_request(req(5, 0, 1, 4), &vals, &mut out);
    assert_eq!(out.len(), 1);
    assert_eq!((out[0].prefix, out[0].val, out[0].diff), (5, 1, 8));

    let trace = vec![KeyHistory { key: 0, vals }];
    let mut out2: Vec<Proposal<u32, u32>> = Vec::new();
    let rest = process_bucket(&vec![req(5, 0, 4, 1), req(6, 0, 9, 1)], &vec![5], &trace, &mut out2);
    assert_eq!(out2.len(), 2);
    assert_eq!(rest.len(), 1);
    assert_eq!(rest[0].prefix, 6);
}

#[test]
fn join_total_is_product_of_multiplicities() {
    let trace = vec![KeyHistory {
        key: 7,
        vals: vec![hist(10, vec![(0, 2), (0, 1)]), hist(11, vec![(0, -1)])],
    }];
    let mut op: Proposer<u32> = Proposer::new();
    op.stash_requests(1, &vec![req(1, 7, 1, 2), req(1, 7, 2, -1)]);
    op.stash_requests(3, &vec![req(1, 7, 3, 4)]);
    let out = op.process_round(false, &vec![4], &trace).unwrap();
    // prefix 1 has multiplicity 2 - 1 + 4 = 5; value 10 has 3, value 11 has -1.
    assert_eq!(sum_for(&out, 1, 10), 15);
    assert_eq!(sum_for(&out, 1, 11), -5);
}

#[test]
fn replay_order_does_not_change_totals() {
    let trace = vec![KeyHistory {
        key: 7,
        vals: vec![hist(10, vec![(0, 1), (2, 2)]), hist(11, vec![(1, 3)])],
    }];
    let a = vec![req(1, 7, 1, 1), req(2, 7, 2, -2)];
    let b = vec![req(1, 7, 3, 5), req(2, 7, 1, 1)];
    let mut first: Proposer<u32> = Proposer::new();
    first.stash_requests(1, &a);
    first.stash_requests(1, &b);
    let mut second: Proposer<u32> = Proposer::new();
    second.stash_requests(1, &b);
    second.stash_requests(1, &a);
    let out1 = first.process_round(false, &vec![4], &trace).unwrap();
    let out2 = second.process_round(false, &vec![4], &trace).unwrap();
    for prefix in [1, 2] {
        for val in [10, 11] {
            assert_eq!(sum_for(&out1, prefix, val), sum_for(&out2, prefix, val));
        }
    }
    assert_eq!(sum_for(&out1, 1, 10), 16);
    assert_eq!(sum_for(&out1, 2, 11), -6 + 3);
}

#[test]
fn capabilities_and_probed_keys() {
    let mut op: Proposer<u32> = Proposer::new();
    op.stash_requests(1, &vec![req(1, 7, 1, 1), req(2, 8, 5, 1)]);
    op.stash_requests(4, &vec![req(3, 9, 4, 1)]);
    assert_eq!(op.capabilities(), vec![1, 4]);
    assert_eq!(op.probed_keys(&vec![2]), vec![7]);
    let mut keys = op.probed_keys(&vec![]);
    keys.sort();
    assert_eq!(keys, vec![7, 8, 9]);
}

#[test]
fn sort_is_stable_by_key() {
    let sorted = dogsdogsdogs::order::sort_requests(&vec![
        req(1, 3, 0, 1),
        req(2, 1, 0, 1),
        req(3, 3, 0, 1),
        req(4, 2, 0, 1),
    ]);
    let order: Vec<(u32, u64)> = sorted.iter().map(|r| (r.prefix, r.key)).collect();
    assert_eq!(order, vec![(2, 1), (4, 2), (1, 3), (3, 3)]);
    assert!(dogsdogsdogs::order::sort_requests::<u32>(&vec![]).is_empty());
}

#[test]
fn round_answers_requests_in_key_order() {
    let trace = vec![
        KeyHistory { key: 1, vals: vec![hist(20, vec![(0, 1)])] },
        KeyHistory { key: 2, vals: vec![hist(30, vec![(0, 1)])] },
    ];
    let mut op: Proposer<u32> = Proposer::new();
    op.stash_requests(0, &vec![req(1, 2, 0, 1), req(2, 1, 0, 1), req(3, 2, 5, 1)]);
    let out = op.process_round(false, &vec![1], &trace).unwrap();
    let got: Vec<(u32, u32)> = out.iter().map(|(_, p)| (p.prefix, p.val)).collect();
    assert_eq!(got, vec![(2, 20), (1, 30)]);
    assert!(!op.stash_is_empty());
}

#[test]
fn batching_does_not_change_the_bucket() {
    let a = vec![req(1, 7, 1, 2), req(2, 7, 1, 1)];
    let b = vec![req(1, 7, 1, -2), req(3, 7, 1, 4)];
    let mut split: Proposer<u32> = Proposer::new();
    split.stash_requests(1, &a);
    split.stash_requests(1, &b);
    let mut whole: Proposer<u32> = Proposer::new();
    let mut ab = a.clone();
    ab.extend(b.iter().copied());
    whole.stash_requests(1, &ab);
    let out1 = split.process_round(false, &vec![2], &scenario_trace()).unwrap();
    let out2 = whole.process_round(false, &vec![2], &scenario_trace()).unwrap();
    let got1: Vec<(u32, i64)> = out1.iter().map(|(_, p)| (p.prefix, p.diff)).collect();
    let got2: Vec<(u32, i64)> = out2.iter().map(|(_, p)| (p.prefix, p.diff)).collect();
    assert_eq!(got1, vec![(2, 1), (3, 4)]);
    assert_eq!(got1, got2);
}
