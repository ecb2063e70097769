use akula::headers::{
    dummy_check_headers, stage_target, BlockHeader, ExecOutput, Graph, HeaderDownload,
    HeaderRequest, Reception, StageError,
};
use akula::downloader::DownloaderLinear;
use akula::store::HeaderStore;
use akula::{Word, H256};

fn hash_of(n: u64) -> H256 {
    H256 { hi: 0xabcd, lo: n as u128 + 1 }
}

fn header(n: u64, difficulty: u128) -> BlockHeader {
    BlockHeader {
        hash: hash_of(n),
        parent_hash: if n == 0 { H256 { hi: 0, lo: 0 } } else { hash_of(n - 1) },
        number: n,
        difficulty: Word::from_u128(difficulty),
    }
}

fn genesis_store() -> HeaderStore {
    HeaderStore::new(header(0, 0), Word::zero())
}

#[test]
fn total_difficulty_of_ten_blocks() {
    let mut store = genesis_store();
    let stage = HeaderDownload::new(u64::MAX);
    let headers: Vec<BlockHeader> = (1..=10).map(|i| header(i, i as u128)).collect();
    let out = stage.commit(&mut store, 0, 10, &headers, true);
    assert_eq!(
        out,
        Ok(ExecOutput::Progress { stage_progress: 10, done: true, reached_tip: true })
    );
    assert_eq!(store.head(), 10);
    assert_eq!(store.total_difficulty(10, &hash_of(10)), Some(Word::from_u128(55)));
    for k in 1..=10u64 {
        let h = store.header(k, &hash_of(k)).unwrap();
        assert_eq!(Some(h.parent_hash), store.canonical_hash(k - 1));
        let td = store.total_difficulty(k, &hash_of(k)).unwrap();
        let below = store.total_difficulty(k - 1, &hash_of(k - 1)).unwrap();
        assert_eq!(below.checked_add(&h.difficulty), Some(td));
    }
    assert_eq!(store.header_number(&hash_of(7)), Some(7));
    assert_eq!(store.header_number(&H256 { hi: 1, lo: 1 }), None);
}

#[test]
fn reorg_asks_to_unwind_without_writes() {
    let mut store = genesis_store();
    let stage = HeaderDownload::new(u64::MAX);
    let first: Vec<BlockHeader> = (1..=3).map(|i| header(i, 1)).collect();
    assert!(stage.commit(&mut store, 0, 3, &first, false).is_ok());
    let mut other = header(4, 1);
    other.parent_hash = H256 { hi: 9, lo: 9 };
    let out = stage.commit(&mut store, 3, 4, &[other], false);
    assert_eq!(out, Ok(ExecOutput::Unwind { unwind_to: 2 }));
    assert_eq!(store.head(), 3);
    assert_eq!(store.canonical_hash(4), None);
}

#[test]
fn commit_needs_canonical_progress() {
    let mut store = genesis_store();
    let stage = HeaderDownload::new(u64::MAX);
    let out = stage.commit(&mut store, 5, 6, &[header(6, 1)], false);
    assert_eq!(out, Err(StageError::NoCanonicalHash { block: 5 }));
}

#[test]
fn commit_stops_at_max_block_and_skips_genesis() {
    let mut store = genesis_store();
    let stage = HeaderDownload::new(4);
    let headers: Vec<BlockHeader> = (0..=6).map(|i| header(i, 2)).collect();
    let out = stage.commit(&mut store, 0, 6, &headers[1..], true);
    assert_eq!(
        out,
        Ok(ExecOutput::Progress { stage_progress: 4, done: true, reached_tip: true })
    );
    assert_eq!(store.head(), 4);
    assert_eq!(stage.max_block(), 4);
}

#[test]
fn contiguity_check() {
    assert!(dummy_check_headers(&[header(3, 1), header(4, 1), header(5, 1)]));
    assert!(dummy_check_headers(&[header(3, 1)]));
    assert!(!dummy_check_headers(&[header(3, 1), header(5, 1)]));
    assert!(!dummy_check_headers(&[header(3, 1), header(2, 1)]));
}

fn sorted(mut rs: Vec<HeaderRequest>) -> Vec<HeaderRequest> {
    rs.sort_by_key(|r| r.start);
    rs
}

#[test]
fn request_slots() {
    let rs = HeaderDownload::prepare_requests(0, 2500);
    let mut got: Vec<(u64, u64)> = rs.iter().map(|e| (*e.key(), *e.value())).collect();
    got.sort();
    assert_eq!(got, vec![(0, 1024), (1024, 1024), (2048, 452)]);
    let rs = HeaderDownload::prepare_requests(1, 2049);
    assert_eq!(rs.len(), 2);
    assert_eq!(rs.get(&1025).map(|e| *e.value()), Some(1024));
    let mut stage = HeaderDownload::new(u64::MAX);
    stage.begin_download(10, 11);
    assert_eq!(stage.outstanding(), vec![HeaderRequest { start: 10, limit: 1 }]);
}

#[test]
fn targets() {
    assert_eq!(stage_target(0, 1000, u64::MAX), (1000, true));
    assert_eq!(stage_target(0, 200000, u64::MAX), (98304, false));
    assert_eq!(stage_target(0, 200000, 500), (500, true));
    assert_eq!(stage_target(u64::MAX - 1, u64::MAX, u64::MAX), (u64::MAX, true));
}

#[test]
fn bad_batch_is_penalized_and_others_fill() {
    let mut stage = HeaderDownload::new(u64::MAX);
    stage.begin_download(1, 9);
    assert_eq!(stage.outstanding(), vec![HeaderRequest { start: 1, limit: 8 }]);
    let mut bad: Vec<BlockHeader> = (1..=8).map(|i| header(i, 1)).collect();
    bad[4].number = 2;
    assert_eq!(stage.receive(&bad), Reception::Rejected);
    assert!(!stage.is_complete());
    assert_eq!(stage.receive(&[]), Reception::Empty);
    let short: Vec<BlockHeader> = (1..=3).map(|i| header(i, 1)).collect();
    assert_eq!(stage.receive(&short), Reception::Ignored);
    let good: Vec<BlockHeader> = (1..=8).map(|i| header(i, 1)).collect();
    assert_eq!(stage.receive(&good), Reception::Filled);
    assert!(stage.is_complete());
    let chain = stage.build_chain();
    assert_eq!(chain, good);

    let mut store = genesis_store();
    let out = stage.commit(&mut store, 0, 8, &chain, true);
    assert_eq!(
        out,
        Ok(ExecOutput::Progress { stage_progress: 8, done: true, reached_tip: true })
    );
}

#[test]
fn opportunistic_headers_in_range() {
    let mut stage = HeaderDownload::new(u64::MAX);
    stage.begin_download(1, 2100);
    assert_eq!(
        sorted(stage.outstanding()),
        vec![
            HeaderRequest { start: 1, limit: 1024 },
            HeaderRequest { start: 1025, limit: 1024 },
            HeaderRequest { start: 2049, limit: 51 },
        ]
    );
    let extra: Vec<BlockHeader> = (5..=7).map(|i| header(i, 1)).collect();
    assert_eq!(stage.receive(&extra), Reception::Opportunistic);
    assert_eq!(stage.receive(&extra), Reception::Ignored);
    let out_of_range: Vec<BlockHeader> = (3000..=3001).map(|i| header(i, 1)).collect();
    assert_eq!(stage.receive(&out_of_range), Reception::Ignored);
    assert_eq!(stage.outstanding().len(), 3);
}

#[test]
fn seal_truncation() {
    let headers: Vec<BlockHeader> = (1..=6).map(|i| header(i, 1)).collect();
    let mut hs = headers.clone();
    HeaderDownload::verify_seal(&mut hs, &vec![true, true, true, false, true, false], None);
    assert_eq!(hs, headers[..3].to_vec());
    let mut hs = headers.clone();
    HeaderDownload::verify_seal(&mut hs, &vec![false, true, true, true, true, true], Some(4));
    assert_eq!(hs, headers[..4].to_vec());
    let mut hs = headers.clone();
    HeaderDownload::verify_seal(&mut hs, &vec![true; 6], None);
    assert_eq!(hs, headers);
}

#[test]
fn graph_tip_and_backtrack() {
    let mut g = Graph::new();
    let main: Vec<BlockHeader> = (1..=5).map(|i| header(i, 1)).collect();
    g.extend(&main);
    let mut fork = header(5, 1);
    fork.hash = H256 { hi: 0, lo: 1 };
    g.extend(&[fork]);
    assert_eq!(g.len(), 6);
    assert!(g.contains(&hash_of(3)));
    // Equal numbers: the smaller hash wins.
    assert_eq!(g.dfs(), Some(fork.hash));
    let chain = g.backtrack(&fork.hash);
    assert_eq!(chain.len(), 5);
    assert_eq!(chain[4], fork);
    assert_eq!(chain[0], main[0]);
    g.clear();
    assert_eq!(g.dfs(), None);
}

#[test]
fn unwind_drops_blocks_and_reports_bad_hash() {
    let mut store = genesis_store();
    let mut stage = HeaderDownload::new(u64::MAX);
    let headers: Vec<BlockHeader> = (1..=5).map(|i| header(i, 1)).collect();
    assert!(stage.commit(&mut store, 0, 5, &headers, true).is_ok());
    let (out, bad) = stage.unwind(&mut store, 2, Some(4));
    assert_eq!(out.stage_progress, 2);
    assert_eq!(bad, Some(hash_of(4)));
    assert_eq!(store.head(), 2);
    assert_eq!(store.canonical_hash(3), None);
    let (out, bad) = stage.unwind(&mut store, 10, None);
    assert_eq!(out.stage_progress, 2);
    assert_eq!(bad, None);
}

#[test]
fn head_status() {
    let mut store = genesis_store();
    let stage = HeaderDownload::new(u64::MAX);
    let headers: Vec<BlockHeader> = (1..=3).map(|i| header(i, 4)).collect();
    assert!(stage.commit(&mut store, 0, 3, &headers, true).is_ok());
    assert_eq!(store.status_at(3), Some((3, hash_of(3), Word::from_u128(12))));
    assert_eq!(store.status_at(4), None);
}

#[test]
fn linear_download_range() {
    assert_eq!(DownloaderLinear::final_block_num(90_000, 192), 0);
    assert_eq!(DownloaderLinear::final_block_num(100_000, 192), 9984);
    assert_eq!(DownloaderLinear::final_block_num(90_500, 100), 500);
    let d = DownloaderLinear::new(1 << 20);
    assert_eq!(d.mem_limit, 1 << 20);
    assert_eq!(d.run_range(10, 100_000, 192), Some((10, 9984)));
    assert_eq!(d.run_range(9984, 100_000, 192), None);
}

#[test]
fn one_penalty_for_a_malformed_batch() {
    let mut stage = HeaderDownload::new(u64::MAX);
    stage.begin_download(1, 2049);
    let all: Vec<BlockHeader> = (1..=2048).map(|i| header(i, 1)).collect();
    let first = all[..1024].to_vec();
    let mut broken = all[1024..].to_vec();
    broken.swap(10, 11);
    let second = all[1024..].to_vec();
    let mut penalties = 0;
    for batch in [first, broken, second] {
        if stage.receive(&batch) == Reception::Rejected {
            penalties += 1;
        }
    }
    assert_eq!(penalties, 1);
    assert!(stage.is_complete());
    let chain = stage.build_chain();
    assert_eq!(chain, all);
    let mut store = genesis_store();
    assert_eq!(
        stage.commit(&mut store, 0, 2048, &chain, false),
        Ok(ExecOutput::Progress { stage_progress: 2048, done: true, reached_tip: false })
    );
    assert_eq!(store.total_difficulty(2048, &hash_of(2048)), Some(Word::from_u128(2048)));
}

#[test]
fn commit_stops_at_target() {
    let mut store = genesis_store();
    let stage = HeaderDownload::new(u64::MAX);
    let headers: Vec<BlockHeader> = (1..=6).map(|i| header(i, 1)).collect();
    assert_eq!(
        stage.commit(&mut store, 0, 4, &headers, false),
        Ok(ExecOutput::Progress { stage_progress: 4, done: true, reached_tip: false })
    );
    assert_eq!(store.head(), 4);
    // A gap in the numbers ends the writes.
    let more = vec![header(5, 1), header(7, 1)];
    assert_eq!(
        stage.commit(&mut store, 4, 10, &more, false),
        Ok(ExecOutput::Progress { stage_progress: 5, done: true, reached_tip: false })
    );
}

#[test]
fn chain_is_cut_at_the_range_end() {
    let mut stage = HeaderDownload::new(u64::MAX);
    stage.begin_download(1, 5);
    // In range at its start, but running past the end.
    let long: Vec<BlockHeader> = (2..=8).map(|i| header(i, 1)).collect();
    assert_eq!(stage.receive(&long), Reception::Opportunistic);
    let first: Vec<BlockHeader> = (1..=4).map(|i| header(i, 1)).collect();
    assert_eq!(stage.receive(&first), Reception::Filled);
    let chain = stage.build_chain();
    assert_eq!(chain, first);
}
