use kv_centric::overlap::prefix_scores;
use kv_centric::policy::{cheapest, least_loaded};
use kv_centric::{
    get_healthy_worker_indices, Binary64, CacheModel, KvCentricConfig, KvCentricOverrides,
    KvCentricPolicy, KvEventMonitor, ModelIndex, SelectWorkerInfo, WorkerState, WorkerType,
};
use kv_index::{
    compute_request_content_hashes, PositionalIndexer, SequenceHash, StoredBlock, WorkerBlockMap,
};
use std::sync::Arc;

fn worker(url: &str, inflight: usize) -> WorkerState {
    WorkerState {
        url: url.to_string(),
        model_id: "m".to_string(),
        worker_type: WorkerType::Prefill,
        healthy: true,
        prefill_inflight: inflight,
    }
}

fn policy() -> KvCentricPolicy {
    KvCentricPolicy::with_config(KvCentricConfig::default())
}

fn loads(workers: &[WorkerState]) -> Vec<usize> {
    workers.iter().map(|w| w.prefill_inflight).collect()
}

fn prompt(len: u32) -> Vec<u32> {
    (0..len).collect()
}

/// Stores the first `blocks` blocks of a prompt for a worker.
fn store(indexer: &PositionalIndexer, url: &str, tokens: &[u32], block_size: usize, blocks: usize) {
    let id = indexer.intern_worker(url).unwrap();
    let mut map = WorkerBlockMap::default();
    let stored: Vec<StoredBlock> = compute_request_content_hashes(tokens, block_size)
        .into_iter()
        .take(blocks)
        .enumerate()
        .map(|(i, content_hash)| StoredBlock { seq_hash: SequenceHash(1000 + i as u64), content_hash })
        .collect();
    indexer.apply_stored(id, &stored, None, &mut map).unwrap();
}

fn monitor(model_id: &str, indexer: PositionalIndexer, block_size: Option<usize>) -> Arc<KvEventMonitor> {
    Arc::new(KvEventMonitor {
        models: vec![
            ModelIndex {
                model_id: "other".to_string(),
                indexer: Arc::new(PositionalIndexer::new(8)),
                block_size: Some(1),
            },
            ModelIndex { model_id: model_id.to_string(), indexer: Arc::new(indexer), block_size },
        ],
    })
}

fn cache(prompt_tokens: usize, block_size: usize, local_cached: Vec<u32>) -> Option<CacheModel> {
    let best_cached_blocks = local_cached.iter().copied().max().unwrap_or(0);
    Some(CacheModel { prompt_tokens, block_size, local_cached, best_cached_blocks })
}

fn numbers(all: &[f64]) -> Vec<Binary64> {
    all.iter().map(|x| Binary64 { bits: x.to_bits() }).collect()
}

#[test]
fn healthy_workers_in_order() {
    let mut workers = vec![worker("a", 0), worker("b", 0), worker("c", 0), worker("d", 0)];
    workers[1].healthy = false;
    assert_eq!(get_healthy_worker_indices(&workers), vec![0, 2, 3]);
    assert_eq!(get_healthy_worker_indices(&[]), Vec::<usize>::new());
}

#[test]
fn nobody_is_selected_where_nobody_is_healthy() {
    let mut workers = vec![worker("a", 0), worker("b", 0)];
    workers[0].healthy = false;
    workers[1].healthy = false;
    let info = SelectWorkerInfo { tokens: None };
    assert_eq!(policy().select_worker(&mut workers, &info), None);
    assert_eq!(policy().select_worker(&mut [], &info), None);
    assert_eq!(loads(&workers), vec![0, 0]);
}

#[test]
fn a_single_candidate_is_selected_and_reserved() {
    let mut workers = vec![worker("a", 0), worker("b", 7)];
    workers[0].healthy = false;
    let info = SelectWorkerInfo { tokens: None };
    assert_eq!(policy().select_worker(&mut workers, &info), Some(1));
    assert_eq!(loads(&workers), vec![0, 8]);
}

#[test]
fn without_tokens_the_least_loaded_is_selected() {
    let mut workers = vec![worker("a", 3), worker("b", 1), worker("c", 1), worker("d", 0)];
    workers[3].healthy = false;
    for tokens in [None, Some(&[][..])] {
        let mut p = policy();
        p.set_kv_event_monitor(Some(monitor("m", PositionalIndexer::new(8), None)));
        let before = loads(&workers);
        let chosen = p.select_worker(&mut workers, &SelectWorkerInfo { tokens }).unwrap();
        assert_eq!(before[chosen], 1);
    }
    // The first of the two, and then the other.
    assert_eq!(loads(&workers), vec![3, 2, 2, 0]);
}

#[test]
fn without_monitor_or_index_the_least_loaded_is_selected() {
    let tokens = prompt(256);
    let info = SelectWorkerInfo { tokens: Some(&tokens) };
    let mut workers = vec![worker("a", 2), worker("b", 1)];
    let mut p = policy();
    assert_eq!(p.select_worker(&mut workers, &info), Some(1));
    let indexer = PositionalIndexer::new(8);
    store(&indexer, "a", &tokens, 64, 4);
    p.set_kv_event_monitor(Some(monitor("another model", indexer, None)));
    workers[0].prefill_inflight = 3;
    assert_eq!(p.select_worker(&mut workers, &info), Some(1));
    assert!(p.cache_model(&workers, &info).is_none());
}

#[test]
fn least_load_and_ties() {
    assert_eq!(least_loaded(&[5]), 0);
    assert_eq!(least_loaded(&[5, 4, 4, 6]), 1);
    assert_eq!(least_loaded(&[usize::MAX, usize::MAX]), 0);
    assert_eq!(least_loaded(&[usize::MAX, usize::MAX - 1]), 1);
}

#[test]
fn least_cost_and_ties() {
    assert_eq!(cheapest(&numbers(&[2.0, 1.0, 1.0, 3.0])), 1);
    assert_eq!(cheapest(&numbers(&[0.0, -0.0])), 0);
    assert_eq!(cheapest(&numbers(&[f64::NAN, 2.0, f64::NEG_INFINITY])), 2);
    // However large they are.
    assert_eq!(cheapest(&numbers(&[f64::NAN, f64::MAX, f64::INFINITY])), 1);
    assert_eq!(cheapest(&numbers(&[f64::INFINITY, f64::MAX])), 1);
    assert_eq!(cheapest(&numbers(&[f64::NAN, f64::INFINITY])), 1);
    assert_eq!(cheapest(&numbers(&[f64::NAN, f64::NAN, f64::INFINITY, f64::INFINITY])), 2);
    assert_eq!(cheapest(&numbers(&[f64::INFINITY, f64::INFINITY])), 0);
    // None is a number: the first.
    assert_eq!(cheapest(&numbers(&[f64::NAN, f64::NAN])), 0);
    assert_eq!(cheapest(&numbers(&[f64::NAN])), 0);
}

#[test]
fn a_decode_worker_gets_no_reservation() {
    let mut workers = vec![worker("a", 1), worker("b", 0)];
    workers[1].worker_type = WorkerType::Decode;
    let info = SelectWorkerInfo { tokens: None };
    assert_eq!(policy().select_worker(&mut workers, &info), Some(1));
    assert_eq!(policy().select_worker(&mut workers, &info), Some(1));
    assert_eq!(loads(&workers), vec![1, 0]);
    workers[0].healthy = false;
    assert_eq!(policy().select_worker(&mut workers, &info), Some(1));
    assert_eq!(loads(&workers), vec![1, 0]);
}

#[test]
fn a_regular_worker_gets_one() {
    let mut workers = vec![worker("a", 1), worker("b", 0)];
    workers[1].worker_type = WorkerType::Regular;
    assert_eq!(policy().select_worker(&mut workers, &SelectWorkerInfo { tokens: None }), Some(1));
    assert_eq!(loads(&workers), vec![1, 1]);
    policy().reserve_compute_slot(&mut workers, 0);
    assert_eq!(loads(&workers), vec![2, 1]);
}

#[test]
fn a_burst_without_costs_goes_round() {
    let mut workers: Vec<WorkerState> = (0..5).map(|_| worker("w", 4)).collect();
    let info = SelectWorkerInfo { tokens: None };
    let chosen: Vec<usize> =
        (0..10).map(|_| policy().select_worker(&mut workers, &info).unwrap()).collect();
    assert_eq!(chosen, vec![0, 1, 2, 3, 4, 0, 1, 2, 3, 4]);
    assert_eq!(loads(&workers), vec![6; 5]);
}

#[test]
fn a_burst_visits_each_healthy_worker_once() {
    let mut workers: Vec<WorkerState> = (0..9).map(|_| worker("w", 0)).collect();
    for i in [0, 3, 4, 8] {
        workers[i].healthy = false;
    }
    workers[5].worker_type = WorkerType::Regular;
    let tokens = prompt(500);
    let p = policy();
    let mut chosen: Vec<usize> = Vec::new();
    for t in 0..5 {
        // There is no monitor, so tokens make no difference.
        let tokens = if t % 2 == 0 { None } else { Some(&tokens[..]) };
        chosen.push(p.select_worker(&mut workers, &SelectWorkerInfo { tokens }).unwrap());
    }
    chosen.sort();
    assert_eq!(chosen, vec![1, 2, 5, 6, 7]);
    assert_eq!(loads(&workers), vec![0, 1, 1, 0, 0, 1, 1, 1, 0]);
}

#[test]
fn the_cache_owner_is_selected_while_it_is_idle() {
    let p = policy();
    let mut workers = vec![worker("a", 0), worker("b", 0), worker("c", 0)];
    let chosen = p.select_with(&mut workers, &cache(20_000, 64, vec![0, 300, 2]));
    assert_eq!(chosen, Some(1));
    assert_eq!(loads(&workers), vec![0, 1, 0]);
}

/// The estimate of the default model, in hardware arithmetic.
fn ttft(prompt: usize, local: u32, best: u32, depth: usize, block_size: usize) -> f64 {
    let compute = |n: usize| {
        let (n, c) = (n as f64, (depth + 1) as f64);
        let isolated: f64 = 14.8 + 0.00464 * n + 4.75e-7 * n * n;
        isolated.max(14.9 + 0.00464 * c * n)
    };
    let (held, there) = (local as usize * block_size, best as usize * block_size);
    let alone = compute(prompt.saturating_sub(held));
    if best > local + 4 {
        let pull = there.saturating_sub(held);
        let read = if pull == 0 { 0.0 } else { 0.215 + 0.000937 * (pull as f64) };
        let with_pull = compute(prompt.saturating_sub(there)) + read;
        if with_pull < alone {
            return with_pull;
        }
    }
    alone
}

#[test]
fn a_burst_leaves_the_cache_owner() {
    let p = policy();
    let mut workers = vec![worker("a", 0), worker("b", 0), worker("c", 0)];
    let model = cache(20_000, 64, vec![0, 300, 2]);
    let mut chosen: Vec<usize> = Vec::new();
    for _ in 0..12 {
        chosen.push(p.select_with(&mut workers, &model).unwrap());
    }
    assert_eq!(chosen[0], 1);
    // Enough requests behind one another on the owner cost more than a pull elsewhere.
    assert!(chosen.contains(&0) && chosen.contains(&2));
    assert_eq!(loads(&workers).iter().sum::<usize>(), 12);
}

#[test]
fn a_long_burst_goes_by_the_estimates() {
    let p = policy();
    let mut state: u64 = 99;
    let mut next = |below: u64| {
        state = state.wrapping_mul(6364136223846793005).wrapping_add(1442695040888963407);
        (state >> 33) % below
    };
    for _ in 0..50 {
        let n = 2 + next(7) as usize;
        let block_size = [1usize, 16, 64][next(3) as usize];
        let prompt = 1 + next(60_000) as usize;
        let cached: Vec<u32> =
            (0..n).map(|_| next((prompt / block_size) as u64 + 1) as u32).collect();
        let best = cached.iter().copied().max().unwrap();
        let mut counts: Vec<usize> = (0..n).map(|_| next(5) as usize).collect();
        let mut workers: Vec<WorkerState> = counts.iter().map(|c| worker("w", *c)).collect();
        let model = cache(prompt, block_size, cached.clone());
        for _ in 0..40 {
            let mut expected = 0;
            let mut least = f64::MAX;
            for i in 0..n {
                let t = ttft(prompt, cached[i], best, counts[i], block_size);
                if t < least {
                    least = t;
                    expected = i;
                }
            }
            assert_eq!(p.select_with(&mut workers, &model), Some(expected));
            counts[expected] += 1;
            assert_eq!(loads(&workers), counts);
        }
    }
}

#[test]
fn the_least_estimate_wins() {
    let p = policy();
    let counts = [0usize, 3, 1, 9, 2];
    let cached = vec![0u32, 40, 7, 300, 10];
    let mut workers: Vec<WorkerState> = counts.iter().map(|n| worker("w", *n)).collect();
    let model = cache(20_000, 64, cached.clone());
    let ttfts: Vec<f64> = (0..5)
        .map(|i| f64::from_bits(p.estimate_ttft(20_000, cached[i], 300, counts[i], 64).ttft_ms.bits))
        .collect();
    let chosen = p.select_with(&mut workers, &model).unwrap();
    for t in &ttfts {
        assert!(ttfts[chosen] <= *t);
    }
}

#[test]
fn equal_costs_leave_the_first() {
    let mut o = KvCentricOverrides::default();
    o.load_overhead_ms = Some(Binary64 { bits: f64::INFINITY.to_bits() });
    let mut config = KvCentricConfig::default();
    config.apply_overrides(&o);
    let p = KvCentricPolicy::with_config(config);
    let mut workers = vec![worker("a", 9), worker("b", 0)];
    assert_eq!(p.select_with(&mut workers, &cache(1000, 64, vec![0, 10])), Some(0));
}

#[test]
fn an_estimate_that_overflows_is_above_all_others() {
    let mut config = KvCentricConfig::default();
    config.compute_slope_ms = Binary64 { bits: 1e304f64.to_bits() };
    let p = KvCentricPolicy::with_config(config);
    let mut workers = vec![worker("a", 9), worker("b", 0)];
    let model = cache(10_000, 64, vec![0, 0]);
    // 1e304 * 10 * 10000 is above every finite number, 1e304 * 1 * 10000 is 1e308.
    let ms = |depth| f64::from_bits(p.estimate_ttft(10_000, 0, 0, depth, 64).ttft_ms.bits);
    assert_eq!((ms(9), ms(0)), (f64::INFINITY, 1e304 * 1e4));
    assert_eq!(p.select_with(&mut workers, &model), Some(1));
}

#[test]
fn a_full_worker_is_no_hindrance_without_estimates() {
    let info = SelectWorkerInfo { tokens: None };
    let mut workers = vec![worker("a", usize::MAX), worker("b", 5)];
    assert_eq!(policy().select_worker(&mut workers, &info), Some(1));
    assert_eq!(loads(&workers), vec![usize::MAX, 6]);
    // A worker that only decodes counts nothing.
    workers[1].healthy = false;
    workers[0].worker_type = WorkerType::Decode;
    assert_eq!(policy().select_worker(&mut workers, &info), Some(0));
    assert_eq!(loads(&workers), vec![usize::MAX, 6]);
}

#[test]
fn unhealthy_workers_do_not_matter() {
    let tokens = prompt(2_000);
    let indexer = PositionalIndexer::new(8);
    store(&indexer, "b", &tokens, 64, 20);
    store(&indexer, "x", &tokens, 64, 31);
    let mut p = policy();
    p.set_kv_event_monitor(Some(monitor("m", indexer, None)));
    let mut first = vec![worker("u", 0), worker("a", 0), worker("b", 1), worker("v", 0)];
    first[0].healthy = false;
    first[3].healthy = false;
    let mut second = vec![worker("x", 70), worker("a", 0), worker("b", 1), worker("a", 3)];
    second[0].healthy = false;
    second[0].model_id = "other".to_string();
    second[3].healthy = false;
    second[3].worker_type = WorkerType::Decode;
    for tokens in [None, Some(&tokens[..])] {
        let info = SelectWorkerInfo { tokens };
        for _ in 0..6 {
            let chosen = p.select_worker(&mut first, &info);
            assert_eq!(chosen, p.select_worker(&mut second, &info));
            assert_eq!(loads(&first)[1..3], loads(&second)[1..3]);
        }
    }
    assert_eq!((loads(&second)[0], loads(&second)[3]), (70, 3));
}

#[test]
fn calls_that_look_up_at_once_choose_one_after_the_other() {
    let tokens = prompt(64);
    let p = policy();
    let mut workers: Vec<WorkerState> = (0..6).map(|_| worker("w", 3)).collect();
    workers[2].healthy = false;
    // All five have looked up the caches before the first of them takes the lock.
    let looked: Vec<Option<CacheModel>> = (0..5)
        .map(|t| {
            let tokens = if t % 2 == 0 { None } else { Some(&tokens[..]) };
            p.cache_model(&workers, &SelectWorkerInfo { tokens })
        })
        .collect();
    let mut chosen: Vec<usize> = Vec::new();
    for t in [3, 0, 4, 2, 1] {
        chosen.push(p.select_with(&mut workers, &looked[t]).unwrap());
    }
    chosen.sort();
    assert_eq!(chosen, vec![0, 1, 3, 4, 5]);
    assert_eq!(loads(&workers), vec![4, 4, 3, 4, 4, 4]);
}

#[test]
fn scores_of_a_real_index() {
    let tokens = prompt(256);
    let indexer = PositionalIndexer::new(8);
    store(&indexer, "a", &tokens, 64, 4);
    store(&indexer, "b", &tokens, 64, 1);
    indexer.intern_worker("d").unwrap();
    let mut workers =
        vec![worker("a", 0), worker("b", 0), worker("c", 0), worker("d", 0), worker("a", 0)];
    workers[4].healthy = false;
    assert_eq!(prefix_scores(&indexer, &tokens, 64, &workers), vec![Some(4), Some(1), None, None]);
    // Another block size, another prompt, no full block, and no block size.
    assert_eq!(prefix_scores(&indexer, &tokens, 32, &workers), vec![None; 4]);
    assert_eq!(prefix_scores(&indexer, &tokens[1..], 64, &workers), vec![None; 4]);
    assert_eq!(prefix_scores(&indexer, &tokens[..63], 64, &workers), vec![None; 4]);
    assert_eq!(prefix_scores(&indexer, &tokens, 0, &workers), vec![None; 4]);
    // The last block is not full.
    let scores = prefix_scores(&indexer, &tokens[..191], 64, &workers);
    assert_eq!(scores, vec![Some(2), Some(1), None, None]);
}

#[test]
fn a_cache_model_from_scores() {
    let cm = CacheModel::from_scores(100, 16, &vec![None, Some(3), Some(5), Some(0)]);
    assert_eq!(cm.prompt_tokens, 100);
    assert_eq!(cm.block_size, 16);
    assert_eq!(cm.local_cached, vec![0, 3, 5, 0]);
    assert_eq!(cm.best_cached_blocks, 5);
    let none = CacheModel::from_scores(1, 2, &vec![]);
    assert_eq!((none.local_cached.len(), none.best_cached_blocks), (0, 0));
}

#[test]
fn the_cache_model_of_a_request() {
    let tokens = prompt(1000);
    let indexer = PositionalIndexer::new(8);
    store(&indexer, "a", &tokens, 64, 10);
    store(&indexer, "b", &tokens, 64, 15);
    let mut p = policy();
    p.set_kv_event_monitor(Some(monitor("m", indexer, None)));
    let mut workers = vec![worker("b", 0), worker("c", 0), worker("a", 0)];
    workers[1].healthy = false;
    let info = SelectWorkerInfo { tokens: Some(&tokens) };
    let cm = p.cache_model(&workers, &info).unwrap();
    assert_eq!(cm.prompt_tokens, 1000);
    // No block size has been learned: that of the configuration.
    assert_eq!(cm.block_size, 64);
    assert_eq!(cm.local_cached, vec![15, 10]);
    assert_eq!(cm.best_cached_blocks, 15);
}

#[test]
fn a_learned_block_size_comes_first() {
    let tokens = prompt(1000);
    let indexer = PositionalIndexer::new(8);
    store(&indexer, "a", &tokens, 16, 50);
    let mut p = policy();
    p.set_kv_event_monitor(Some(monitor("m", indexer, Some(16))));
    let workers = vec![worker("a", 0), worker("b", 0)];
    let info = SelectWorkerInfo { tokens: Some(&tokens) };
    let cm = p.cache_model(&workers, &info).unwrap();
    assert_eq!((cm.block_size, cm.local_cached, cm.best_cached_blocks), (16, vec![50, 0], 50));
}

#[test]
fn the_monitor_is_asked_for_the_model() {
    let monitor = monitor("m", PositionalIndexer::new(8), Some(16));
    assert!(monitor.get_indexer(&"m".to_string()).is_some());
    assert_eq!(monitor.block_size(&"m".to_string()), Some(16));
    assert_eq!(monitor.block_size(&"other".to_string()), Some(1));
    assert!(monitor.get_indexer(&"none".to_string()).is_none());
    assert_eq!(monitor.block_size(&"none".to_string()), None);
}

#[test]
fn a_request_goes_to_the_worker_with_its_prefix() {
    let tokens = prompt(20_000);
    let indexer = PositionalIndexer::new(8);
    store(&indexer, "b", &tokens, 64, 300);
    let mut p = policy();
    p.set_kv_event_monitor(Some(monitor("m", indexer, None)));
    let mut workers = vec![worker("a", 0), worker("b", 0), worker("c", 0)];
    let info = SelectWorkerInfo { tokens: Some(&tokens) };
    assert_eq!(p.select_worker(&mut workers, &info), Some(1));
    // By load alone it would be the first.
    p.set_kv_event_monitor(None);
    assert_eq!(p.select_worker(&mut workers, &info), Some(0));
    assert_eq!(loads(&workers), vec![1, 1, 0]);
}

#[test]
fn name_and_needs() {
    assert_eq!(policy().name(), "kv_centric");
    assert!(!policy().needs_request_text());
}
