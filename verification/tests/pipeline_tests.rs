//! End-to-end pipeline scenarios, driven against the verified decision
//! functions, the in-memory cache, and the disk entry codec standing in for
//! the file store.

use imaged::diskcodec::{encode_entry, parse_entry, CacheFileError};
use imaged::diskstate::{plan_removals, sort_candidates, Candidate, DiskCacheState};
use imaged::image_types::{ImageOutput, ImageType, InputImageType, ProcessOptions};
use imaged::memcache::MemoryCache;
use imaged::pipeline::{
    after_disk_probe, after_fetch, after_mem_probe, check_signature, fill_plan, first_probe,
    response_status, CacheStatus, DiskProbeOutcome, FirstProbe, MemProbeOutcome, PipelineConfig,
    RequestError,
};
use imaged::signature::Verifier;

fn opts() -> ProcessOptions {
    ProcessOptions { width: Some(100), height: None, out_type: None, quality: None, blur: None }
}

fn processed(body: &[u8]) -> ImageOutput {
    ImageOutput {
        buf: body.to_vec(),
        img_type: ImageType::Jpeg,
        width: 100,
        height: 75,
        orig_size: 4096,
        orig_type: InputImageType::Jpeg,
        orig_width: 800,
        orig_height: 600,
    }
}

struct FakeWorld {
    mem: MemoryCache,
    disk: Option<Vec<u8>>,
    fetches: u32,
}

impl FakeWorld {
    fn new() -> FakeWorld {
        FakeWorld { mem: MemoryCache::new(1 << 20), disk: None, fetches: 0 }
    }

    /// Run one image request through the pipeline decisions.
    fn request(&mut self, cfg: &PipelineConfig, url: &str) -> (ImageOutput, Option<CacheStatus>) {
        match first_probe(cfg) {
            FirstProbe::Mem => {
                let found = self.mem.get(url, opts());
                match after_mem_probe(cfg, found) {
                    MemProbeOutcome::Hit(out) => {
                        return (out, response_status(cfg, true));
                    }
                    MemProbeOutcome::TryDisk => self.request_via_disk(cfg, url),
                    MemProbeOutcome::DoFetch => self.request_via_fetch(cfg, url),
                }
            }
            FirstProbe::Disk => self.request_via_disk(cfg, url),
            FirstProbe::Fetch => self.request_via_fetch(cfg, url),
        }
    }

    fn request_via_disk(
        &mut self,
        cfg: &PipelineConfig,
        url: &str,
    ) -> (ImageOutput, Option<CacheStatus>) {
        let read: Result<Option<ImageOutput>, CacheFileError> = match &self.disk {
            Some(bytes) => parse_entry(bytes.as_slice()).map(Some),
            None => Ok(None),
        };
        match after_disk_probe(cfg, read) {
            DiskProbeOutcome::Hit { output, promote_to_mem } => {
                if promote_to_mem {
                    self.mem.set(url, opts(), output.clone());
                }
                (output, response_status(cfg, true))
            }
            DiskProbeOutcome::DoFetch => self.request_via_fetch(cfg, url),
        }
    }

    fn request_via_fetch(
        &mut self,
        cfg: &PipelineConfig,
        url: &str,
    ) -> (ImageOutput, Option<CacheStatus>) {
        self.fetches += 1;
        after_fetch(200).expect("upstream answers 200 in these scenarios");
        let out = processed(b"encoded-image-bytes");
        let plan = fill_plan(cfg);
        if plan.store_mem {
            self.mem.set(url, opts(), out.clone());
        }
        if plan.store_disk {
            self.disk = Some(encode_entry(&out));
        }
        (out, response_status(cfg, false))
    }
}

fn both_tiers() -> PipelineConfig {
    PipelineConfig { has_mem_cache: true, has_disk_cache: true, should_cache: true }
}

#[test]
fn cold_miss_fills_both_tiers() {
    let cfg = both_tiers();
    let mut world = FakeWorld::new();
    let (out, status) = world.request(&cfg, "http://u/img?width=100");
    assert_eq!(world.fetches, 1, "fetch invoked once");
    assert_eq!(status, Some(CacheStatus::Miss));
    assert!(world.mem.get("http://u/img?width=100", opts()).is_some());
    assert!(world.disk.is_some());
    assert_eq!(out.buf, b"encoded-image-bytes".to_vec());
}

#[test]
fn mem_cache_hit_skips_fetch() {
    let cfg = both_tiers();
    let mut world = FakeWorld::new();
    let (first, _) = world.request(&cfg, "http://u/img?width=100");
    let (second, status) = world.request(&cfg, "http://u/img?width=100");
    assert_eq!(world.fetches, 1, "fetch not invoked again");
    assert_eq!(status, Some(CacheStatus::Hit));
    assert_eq!(second.buf, first.buf, "body is byte-equal");
}

#[test]
fn disk_hit_promotes_to_mem() {
    let cfg = both_tiers();
    let mut world = FakeWorld::new();
    world.request(&cfg, "http://u/img?width=100");
    // clear the memory cache between requests
    world.mem = MemoryCache::new(1 << 20);
    let (out, status) = world.request(&cfg, "http://u/img?width=100");
    assert_eq!(world.fetches, 1, "fetch not invoked; the disk answered");
    assert_eq!(status, Some(CacheStatus::Hit));
    assert_eq!(out.buf, b"encoded-image-bytes".to_vec());
    assert!(
        world.mem.get("http://u/img?width=100", opts()).is_some(),
        "the disk hit was promoted into the memory cache"
    );
}

#[test]
fn no_cache_configured_reports_no_status() {
    let cfg = PipelineConfig { has_mem_cache: false, has_disk_cache: false, should_cache: true };
    let mut world = FakeWorld::new();
    let (_, status) = world.request(&cfg, "http://u/img");
    assert_eq!(status, None);
    assert_eq!(world.fetches, 1);
}

#[test]
fn nocache_request_fills_nothing() {
    let cfg = PipelineConfig { has_mem_cache: true, has_disk_cache: true, should_cache: false };
    let mut world = FakeWorld::new();
    let (_, status) = world.request(&cfg, "http://u/img");
    assert_eq!(status, Some(CacheStatus::Miss));
    assert!(world.mem.get("http://u/img", opts()).is_none());
    assert!(world.disk.is_none());
}

#[test]
fn upstream_failure_is_surfaced_with_status() {
    assert_eq!(after_fetch(200), Ok(()));
    assert_eq!(after_fetch(404), Err(RequestError::UpstreamStatus(404)));
    assert_eq!(after_fetch(503), Err(RequestError::UpstreamStatus(503)));
}

#[test]
fn corrupt_disk_entry_counts_as_miss() {
    let cfg = both_tiers();
    let mut world = FakeWorld::new();
    world.disk = Some(vec![0, 0, 0, 9, 1, 2, 3]);
    // memory is empty; the corrupt disk entry must fall through to a fetch
    let (_, status) = world.request(&cfg, "http://u/img?width=100");
    assert_eq!(world.fetches, 1);
    assert_eq!(status, Some(CacheStatus::Miss));
}

#[test]
fn rejected_signature_means_no_fetch() {
    let key = b"configured-key".to_vec();
    let ver = Verifier::new(&vec![hex::encode(&key).into_bytes()]).unwrap();
    // a signature produced with a different key
    let sig_hex = hex::encode([0u8; 32]);
    let r = check_signature(Some(&ver), b"/", Some(b"url=u"), Some(sig_hex.as_bytes()));
    assert_eq!(r, Err(RequestError::Unverified), "the request dies before any work");
    let r2 = check_signature(Some(&ver), b"/", Some(b"url=u"), None);
    assert_eq!(r2, Err(RequestError::MissingSignature));
    // no verifier configured: verification is a no-op success
    assert_eq!(check_signature(None, b"/", None, None), Ok(()));
}

#[test]
fn disk_eviction_under_pressure() {
    let mb: u64 = 1 << 20;
    let mut state = DiskCacheState::new(10 * mb);
    // insert 20 MB of distinct entries over time
    for _ in 0..20 {
        state.record_add(mb);
    }
    assert!(state.needs_clean());
    let mut removed_total: u64 = 0;
    let mut batches = 0;
    while state.needs_clean() {
        let target = state.removal_target();
        // a fresh random sample of candidates, one per remaining file
        let remaining = ((state.cur_bytes()) / mb) as usize;
        let cands: Vec<Candidate> = (0..remaining)
            .map(|i| Candidate { score_kind: 1, score: i as u64, size: mb })
            .collect();
        let sorted = sort_candidates(&cands);
        let (count, freed) = plan_removals(&sorted, target);
        assert!(count <= 10, "at most ten files per batch");
        let freed64 = freed as u64;
        removed_total += freed64;
        state.record_removed(freed64);
        batches += 1;
        assert!(batches < 100, "the cleaner must terminate");
    }
    assert!(state.cur_bytes() <= 10 * mb, "approx_size within budget after cleaning");
    assert!(removed_total >= 10 * mb, "at least 10 MB of files were unlinked");
}

#[test]
fn eviction_prefers_oldest_candidates() {
    let cands = vec![
        Candidate { score_kind: 1, score: 30, size: 5 },
        Candidate { score_kind: 1, score: 10, size: 7 },
        Candidate { score_kind: 0, score: 0, size: 2 },
        Candidate { score_kind: 1, score: 20, size: 3 },
    ];
    let sorted = sort_candidates(&cands);
    assert_eq!(sorted[0].score_kind, 0, "unscored files sort first");
    assert_eq!(sorted[1].score, 10);
    assert_eq!(sorted[2].score, 20);
    assert_eq!(sorted[3].score, 30);
    // deletion stops as soon as the target is met
    let (count, freed) = plan_removals(&sorted, 8);
    assert_eq!(count, 2);
    assert_eq!(freed, 9);
}
