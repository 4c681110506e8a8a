//! How much of a prompt each worker has cached, as the KV-event index tells.
use crate::workers::{are_healthy, get_healthy_worker_indices, healthy_indices, WorkerState};
use kv_index::{ContentHash, OverlapScores, PositionalIndexer};
use std::sync::Arc;
use vstd::prelude::*;

verus! {

/// The index of cached blocks, by worker and position. It is filled by the KV events of the
/// workers while it is read.
#[verifier::external_type_specification]
#[verifier::external_body]
pub struct ExPositionalIndexer(PositionalIndexer);

/// What one look-up in the index found.
#[verifier::external_type_specification]
#[verifier::external_body]
pub struct ExOverlapScores(OverlapScores);

/// The content hash of one block of tokens.
pub uninterp spec fn content_hash(block: Seq<u32>) -> u64;

/// The blocks matched, by the index's worker id.
pub uninterp spec fn matched_blocks(overlap: OverlapScores) -> Map<u32, u32>;

/// In some state that it comes to, the index answers a look-up of these hashes with these
/// matches. The events of the workers change the state between one look-up and the next.
pub uninterp spec fn can_match(
    indexer: PositionalIndexer,
    hashes: Seq<u64>,
    early_exit: bool,
    matched: Map<u32, u32>,
) -> bool;

/// In some state that it comes to, the index knows the worker at `url` by `id`, or not at all.
pub uninterp spec fn can_identify(indexer: PositionalIndexer, url: Seq<char>, id: Option<u32>) -> bool;

/// The content hashes of the full blocks of a prompt.
pub open spec fn request_hashes(tokens: Seq<u32>, block_size: nat) -> Seq<u64> {
    if block_size == 0 {
        Seq::empty()
    } else {
        Seq::new(
            tokens.len() / block_size,
            |i: int| content_hash(tokens.subrange(i * block_size, (i + 1) * block_size)),
        )
    }
}

/// Calls `kv_index::compute_request_content_hashes`: one hash for each full block, in order, and
/// none at all for a block size of 0. The hash of a block is that of
/// `kv_index::compute_content_hash` and depends on its tokens alone.
#[verifier::external_body]
fn compute_request_content_hashes(tokens: &[u32], block_size: usize) -> (r: Vec<u64>)
    ensures
        r@ == (if block_size == 0 {
            Seq::empty()
        } else {
            Seq::new(
                tokens@.len() / block_size as nat,
                (|i: int| content_hash(tokens@.subrange(i * block_size, (i + 1) * block_size))),
            )
        }),
{
    kv_index::compute_request_content_hashes(tokens, block_size).into_iter().map(|h| h.0).collect()
}

/// Calls `PositionalIndexer::find_matches`. The matches are an answer that the index can give to
/// these hashes. A worker is given no more blocks than there are hashes, one block with
/// `early_exit`, and nothing is matched where there are no hashes. Which workers are matched, and
/// how far, depends on the events that the index has taken in, and is not stated.
#[verifier::external_body]
fn find_matches(indexer: &PositionalIndexer, hashes: &[u64], early_exit: bool) -> (r: OverlapScores)
    ensures
        can_match(*indexer, hashes@, early_exit, matched_blocks(r)),
        forall|id: u32| #[trigger]
            matched_blocks(r).contains_key(id) ==> matched_blocks(r)[id] <= hashes@.len(),
        early_exit ==> forall|id: u32| #[trigger]
            matched_blocks(r).contains_key(id) ==> matched_blocks(r)[id] == 1,
        hashes@.len() == 0 ==> forall|id: u32| !(#[trigger] matched_blocks(r).contains_key(id)),
{
    let hashes: Vec<ContentHash> = hashes.iter().map(|h| ContentHash(*h)).collect();
    indexer.find_matches(&hashes, early_exit)
}

/// Calls `PositionalIndexer::worker_id`. The id is an answer that the index can give for this
/// URL; whether it has one depends on the events that it has taken in, and is not stated.
#[verifier::external_body]
fn worker_id(indexer: &PositionalIndexer, url: &str) -> (r: Option<u32>)
    ensures
        can_identify(*indexer, url@, r),
{
    indexer.worker_id(url)
}

/// Calls `get` on the map `OverlapScores::scores`: the blocks matched for this id, if it is
/// among the matches.
#[verifier::external_body]
fn score(overlap: &OverlapScores, id: u32) -> (r: Option<u32>)
    ensures
        r == (if matched_blocks(*overlap).contains_key(id) {
            Some(matched_blocks(*overlap)[id])
        } else {
            None
        }),
{
    overlap.scores.get(&id).copied()
}

/// The blocks matched for the worker that goes by `id`, if it is among the matches.
pub open spec fn matched_for(matched: Map<u32, u32>, id: Option<u32>) -> Option<u32> {
    match id {
        Some(n) => if matched.contains_key(n) {
            Some(matched[n])
        } else {
            None
        },
        None => None,
    }
}

/// `score` is what the matches say of the worker at `url`, under an id that the index can give it.
pub open spec fn read_off_one(
    indexer: PositionalIndexer,
    url: Seq<char>,
    matched: Map<u32, u32>,
    score: Option<u32>,
) -> bool {
    exists|id: Option<u32>| #[trigger]
        can_identify(indexer, url, id) && score == matched_for(matched, id)
}

/// One look-up's matches, read off for the workers at `urls`.
pub open spec fn read_off(
    indexer: PositionalIndexer,
    urls: Seq<Seq<char>>,
    matched: Map<u32, u32>,
    scores: Seq<Option<u32>>,
) -> bool {
    &&& scores.len() == urls.len()
    &&& forall|i: int|
        0 <= i < urls.len() ==> read_off_one(indexer, urls[i], matched, #[trigger] scores[i])
}

/// `scores` is an answer that the index can give to the question how many leading blocks of a
/// prompt the workers at `urls` have cached.
pub open spec fn can_score(
    indexer: PositionalIndexer,
    tokens: Seq<u32>,
    block_size: nat,
    urls: Seq<Seq<char>>,
    scores: Seq<Option<u32>>,
) -> bool {
    exists|matched: Map<u32, u32>| #[trigger]
        can_match(indexer, request_hashes(tokens, block_size), false, matched) && read_off(
            indexer,
            urls,
            matched,
            scores,
        )
}

/// The URLs of the healthy workers.
pub open spec fn healthy_urls(workers: Seq<WorkerState>) -> Seq<Seq<char>> {
    healthy_indices(workers).map_values(|i: usize| workers[i as int].url@)
}

/// Asks the index how many leading blocks of a prompt each healthy worker has cached.
pub fn prefix_scores(
    indexer: &PositionalIndexer,
    tokens: &[u32],
    block_size: usize,
    workers: &[WorkerState],
) -> (r: Vec<Option<u32>>)
    ensures
        can_score(*indexer, tokens@, block_size as nat, healthy_urls(workers@), r@),
        forall|i: int|
            0 <= i < r@.len() && (#[trigger] r@[i]) is Some ==> 0 < block_size <= tokens@.len()
                && r@[i]->0 <= tokens@.len() / block_size as nat,
{
    let healthy: Vec<usize> = get_healthy_worker_indices(workers);
    let ghost urls: Seq<Seq<char>> = healthy_urls(workers@);
    let hashes: Vec<u64> = compute_request_content_hashes(tokens, block_size);
    assert(hashes@ =~= request_hashes(tokens@, block_size as nat));
    let overlap: OverlapScores = find_matches(indexer, &hashes, false);
    let ghost matched: Map<u32, u32> = matched_blocks(overlap);
    assert(hashes@.len() > 0 ==> 0 < block_size <= tokens@.len()) by {
        if 0 < block_size && tokens@.len() < block_size {
            assert(tokens@.len() / block_size as nat == 0) by (nonlinear_arith)
                requires
                    tokens@.len() < block_size,
            ;
        }
    }
    let mut r: Vec<Option<u32>> = Vec::new();
    let mut i: usize = 0;
    while i < healthy.len()
        invariant
            healthy@ == healthy_indices(workers@),
            urls == healthy_urls(workers@),
            are_healthy(workers@, healthy@),
            matched == matched_blocks(overlap),
            forall|id: u32| #[trigger]
                matched.contains_key(id) ==> 0 < block_size <= tokens@.len() && matched[id]
                    <= tokens@.len() / block_size as nat,
            i <= healthy@.len(),
            r@.len() == i,
            forall|k: int|
                0 <= k < i ==> read_off_one(*indexer, urls[k], matched, #[trigger] r@[k]),
            forall|k: int|
                0 <= k < i && (#[trigger] r@[k]) is Some ==> 0 < block_size <= tokens@.len()
                    && r@[k]->0 <= tokens@.len() / block_size as nat,
        decreases healthy@.len() - i,
    {
        let worker: &WorkerState = &workers[healthy[i]];
        let id: Option<u32> = worker_id(indexer, worker.url.as_str());
        let found: Option<u32> = match id {
            Some(n) => score(&overlap, n),
            None => None,
        };
        assert(read_off_one(*indexer, urls[i as int], matched, found)) by {
            assert(can_identify(*indexer, urls[i as int], id));
        }
        r.push(found);
        i += 1;
    }
    assert(read_off(*indexer, urls, matched, r@));
    r
}

/// The index of one model and the block size learned for it.
#[derive(Debug)]
pub struct ModelIndex {
    pub model_id: String,
    pub indexer: Arc<PositionalIndexer>,
    pub block_size: Option<usize>,
}

/// What the policy reads of the monitor of KV events: an index for each model with events.
#[derive(Debug)]
pub struct KvEventMonitor {
    pub models: Vec<ModelIndex>,
}

/// The first entry under a model id.
pub open spec fn first_entry(models: Seq<ModelIndex>, model_id: Seq<char>) -> Option<ModelIndex>
    decreases models.len(),
{
    if models.len() == 0 {
        None
    } else if models.first().model_id@ == model_id {
        Some(models.first())
    } else {
        first_entry(models.drop_first(), model_id)
    }
}

impl KvEventMonitor {
    fn entry(&self, model_id: &String) -> (r: Option<&ModelIndex>)
        ensures
            r == (match first_entry(self.models@, model_id@) {
                Some(m) => Some(&m),
                None => None,
            }),
    {
        let mut i: usize = 0;
        assert(self.models@.skip(0) =~= self.models@);
        while i < self.models.len()
            invariant
                i <= self.models@.len(),
                first_entry(self.models@, model_id@) == first_entry(
                    self.models@.skip(i as int),
                    model_id@,
                ),
            decreases self.models@.len() - i,
        {
            assert(self.models@.skip(i as int).drop_first() =~= self.models@.skip(i + 1));
            if self.models[i].model_id == *model_id {
                return Some(&self.models[i]);
            }
            i += 1;
        }
        None
    }

    /// The index of a model.
    pub fn get_indexer(&self, model_id: &String) -> (r: Option<&Arc<PositionalIndexer>>)
        ensures
            r == (match first_entry(self.models@, model_id@) {
                Some(m) => Some(&m.indexer),
                None => None,
            }),
    {
        match self.entry(model_id) {
            Some(m) => Some(&m.indexer),
            None => None,
        }
    }

    /// The block size learned for a model.
    pub fn block_size(&self, model_id: &String) -> (r: Option<usize>)
        ensures
            r == (match first_entry(self.models@, model_id@) {
                Some(m) => m.block_size,
                None => None,
            }),
    {
        match self.entry(model_id) {
            Some(m) => m.block_size,
            None => None,
        }
    }
}

/// How much of a prompt each healthy worker has cached. `local_cached[i]` is that of the i-th
/// healthy worker.
#[derive(Debug)]
pub struct CacheModel {
    pub prompt_tokens: usize,
    pub block_size: usize,
    pub local_cached: Vec<u32>,
    pub best_cached_blocks: u32,
}

/// `best` is the largest of the numbers, or 0 where there are none.
pub open spec fn is_largest(all: Seq<u32>, best: u32) -> bool {
    &&& forall|i: int| 0 <= i < all.len() ==> (#[trigger] all[i]) <= best
    &&& best == 0 || exists|i: int| 0 <= i < all.len() && (#[trigger] all[i]) == best
}

/// The blocks that count as cached: none for a worker that was not matched.
pub open spec fn cached_blocks(scores: Seq<Option<u32>>) -> Seq<u32> {
    scores.map_values(
        |s: Option<u32>|
            match s {
                Some(n) => n,
                None => 0,
            },
    )
}

impl CacheModel {
    /// The model speaks of `n` workers, and the tokens it counts can be counted.
    pub open spec fn fits(self, n: nat) -> bool {
        &&& self.local_cached@.len() == n
        &&& forall|i: int| 0 <= i < n ==> (#[trigger] self.local_cached@[i]) <= self.best_cached_blocks
        &&& self.best_cached_blocks * self.block_size <= usize::MAX
    }

    /// The model of a prompt, from what the index said of each healthy worker.
    pub fn from_scores(
        prompt_tokens: usize,
        block_size: usize,
        scores: &Vec<Option<u32>>,
    ) -> (r: CacheModel)
        ensures
            r.prompt_tokens == prompt_tokens,
            r.block_size == block_size,
            r.local_cached@ == cached_blocks(scores@),
            is_largest(r.local_cached@, r.best_cached_blocks),
    {
        let mut local_cached: Vec<u32> = Vec::new();
        let mut best_cached_blocks: u32 = 0;
        let mut i: usize = 0;
        while i < scores.len()
            invariant
                i <= scores@.len(),
                local_cached@ == cached_blocks(scores@.take(i as int)),
                is_largest(local_cached@, best_cached_blocks),
            decreases scores@.len() - i,
        {
            let cached: u32 = match scores[i] {
                Some(n) => n,
                None => 0,
            };
            let ghost before: Seq<u32> = local_cached@;
            let ghost best_before: u32 = best_cached_blocks;
            if best_cached_blocks < cached {
                best_cached_blocks = cached;
            }
            local_cached.push(cached);
            i += 1;
            proof {
                assert(local_cached@ =~= cached_blocks(scores@.take(i as int)));
                assert(local_cached@[i - 1] == cached);
                if best_cached_blocks == best_before && best_before != 0 {
                    let k: int = choose|k: int| 0 <= k < before.len() && before[k] == best_before;
                    assert(local_cached@[k] == best_before);
                }
            }
        }
        assert(scores@.take(i as int) =~= scores@);
        CacheModel { prompt_tokens, block_size, local_cached, best_cached_blocks }
    }
}

} // verus!
