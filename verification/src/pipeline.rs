//! The request pipeline's decisions: verify, probe the memory cache, probe
//! the disk cache, fetch, process, fill the caches, respond — with the cache
//! status the response reports.
//!
//! The waiting — permits, the single-flight slot, the HTTP fetch, the
//! blocking decode — is plumbing; every branch the plumbing takes between
//! those waits is decided by a function here, and each decision is exact:
//! hits answer from the cache, disk errors count as misses, cache-fill
//! failures never fail the request, and the status is `HIT` exactly when a
//! cache answered.

use vstd::prelude::*;
use crate::diskcodec::CacheFileError;
use crate::image_types::ImageOutput;
use crate::signature::SignatureError;
use crate::signature::Verifier;
use crate::signature::canonical_message;

verus! {

/// Which caches this node runs, and whether this request may use them.
#[derive(Clone, Copy, Debug, PartialEq, Eq, Structural)]
pub struct PipelineConfig {
    pub has_mem_cache: bool,
    pub has_disk_cache: bool,
    pub should_cache: bool,
}

/// The cache outcome a response reports.
#[derive(Clone, Copy, Debug, PartialEq, Eq, Structural)]
pub enum CacheStatus {
    Hit,
    Miss,
}

/// Why a request failed before producing a response body.
#[derive(Clone, Copy, Debug, PartialEq, Eq, Structural)]
pub enum RequestError {
    /// A verifier is configured but the request carries no signature.
    MissingSignature,
    /// The signature is present but not valid hex.
    BadSignatureHex,
    /// No configured key verifies the signature.
    Unverified,
    /// The upstream fetch returned a status other than 200; the status is
    /// carried for the error message.
    UpstreamStatus(u16),
}

/// Authenticate a request before any work is admitted: with no verifier
/// configured every request passes; with one, a signature must be present
/// and must verify.
pub fn check_signature(
    ver: Option<&Verifier>,
    path: &[u8],
    query: Option<&[u8]>,
    sig: Option<&[u8]>,
) -> (r: Result<(), RequestError>)
    ensures
        ({
            let msg = canonical_message(
                path@,
                match query {
                    Option::Some(q) => Option::Some(q@),
                    Option::None => Option::None,
                },
            );
            match ver {
                Option::None => r == Ok::<(), RequestError>(()),
                Option::Some(v) => match sig {
                    Option::None => r == Err::<(), RequestError>(RequestError::MissingSignature),
                    Option::Some(sg) => match r {
                        Ok(u) => match crate::hexcodec::unhex(sg@) {
                            Some(raw) => exists|i: int|
                                0 <= i < v.keys_model().len()
                                    && crate::outside::hmac_sha256_of(
                                    #[trigger] v.keys_model()[i],
                                    msg,
                                ) == raw,
                            None => false,
                        },
                        Err(RequestError::BadSignatureHex) => crate::hexcodec::unhex(sg@) is None,
                        Err(RequestError::Unverified) => match crate::hexcodec::unhex(sg@) {
                            Some(raw) => forall|i: int|
                                0 <= i < v.keys_model().len()
                                    ==> crate::outside::hmac_sha256_of(
                                    #[trigger] v.keys_model()[i],
                                    msg,
                                ) != raw,
                            None => false,
                        },
                        _ => false,
                    },
                },
            }
        }),
{
    let v = match ver {
        Some(v) => v,
        None => {
            return Ok(());
        },
    };
    let sg = match sig {
        Some(sg) => sg,
        None => {
            return Err(RequestError::MissingSignature);
        },
    };
    match v.verify(path, query, sg) {
        Ok(()) => Ok(()),
        Err(SignatureError::BadSignatureHex) => Err(RequestError::BadSignatureHex),
        Err(SignatureError::Unverified) => Err(RequestError::Unverified),
        Err(SignatureError::BadKeyHex) => Err(RequestError::Unverified),
    }
}

/// Where the leader starts: the memory cache when configured, else the disk
/// cache when configured, else straight to the fetch.
#[derive(Clone, Copy, Debug, PartialEq, Eq, Structural)]
pub enum FirstProbe {
    Mem,
    Disk,
    Fetch,
}

/// Decide the leader's first step.
pub fn first_probe(cfg: &PipelineConfig) -> (r: FirstProbe)
    ensures
        r == if cfg.has_mem_cache {
            FirstProbe::Mem
        } else if cfg.has_disk_cache {
            FirstProbe::Disk
        } else {
            FirstProbe::Fetch
        },
{
    if cfg.has_mem_cache {
        FirstProbe::Mem
    } else if cfg.has_disk_cache {
        FirstProbe::Disk
    } else {
        FirstProbe::Fetch
    }
}

/// What follows a memory-cache probe.
pub enum MemProbeOutcome {
    /// The cached output answers the request.
    Hit(ImageOutput),
    /// Probe the disk cache next.
    TryDisk,
    /// No other cache: fetch the original.
    DoFetch,
}

/// Decide what follows a memory-cache probe: a hit answers, a miss falls
/// through to the disk cache when configured, else to the fetch.
pub fn after_mem_probe(cfg: &PipelineConfig, found: Option<ImageOutput>) -> (r: MemProbeOutcome)
    ensures
        match found {
            Some(out) => r matches MemProbeOutcome::Hit(o) && o@ == out@,
            None => if cfg.has_disk_cache {
                r is TryDisk
            } else {
                r is DoFetch
            },
        },
{
    match found {
        Some(out) => MemProbeOutcome::Hit(out),
        None => {
            if cfg.has_disk_cache {
                MemProbeOutcome::TryDisk
            } else {
                MemProbeOutcome::DoFetch
            }
        },
    }
}

/// What follows a disk-cache probe.
pub enum DiskProbeOutcome {
    /// The stored output answers the request; when the memory cache is
    /// configured and the request may cache, the output is also promoted
    /// into it.
    Hit { output: ImageOutput, promote_to_mem: bool },
    /// Miss — or a corrupt entry, treated as a miss: fetch the original.
    DoFetch,
}

/// Decide what follows a disk-cache probe. A read error or corrupt entry
/// is treated as a miss, never surfaced.
pub fn after_disk_probe(cfg: &PipelineConfig, found: Result<Option<ImageOutput>, CacheFileError>)
    -> (r: DiskProbeOutcome)
    ensures
        match found {
            Ok(Some(out)) => r matches DiskProbeOutcome::Hit { output, promote_to_mem } && output@
                == out@ && promote_to_mem == (cfg.has_mem_cache && cfg.should_cache),
            Ok(None) => r is DoFetch,
            Err(e) => r is DoFetch,
        },
{
    match found {
        Ok(Some(out)) => DiskProbeOutcome::Hit {
            output: out,
            promote_to_mem: cfg.has_mem_cache && cfg.should_cache,
        },
        Ok(None) => DiskProbeOutcome::DoFetch,
        Err(_) => DiskProbeOutcome::DoFetch,
    }
}

/// Decide what a fetch outcome means: only status 200 proceeds to
/// processing; anything else fails the request with the status echoed.
pub fn after_fetch(status: u16) -> (r: Result<(), RequestError>)
    ensures
        status == 200 ==> r == Ok::<(), RequestError>(()),
        status != 200 ==> r == Err::<(), RequestError>(RequestError::UpstreamStatus(status)),
{
    if status == 200 {
        Ok(())
    } else {
        Err(RequestError::UpstreamStatus(status))
    }
}

/// Which caches a freshly processed output is written to.
#[derive(Clone, Copy, Debug, PartialEq, Eq, Structural)]
pub struct FillPlan {
    pub store_mem: bool,
    pub store_disk: bool,
}

/// Decide the cache fill after a miss was processed: each configured tier
/// is written when the request may cache. Disk-write failures are logged
/// and swallowed by the runner; they never reach the response.
pub fn fill_plan(cfg: &PipelineConfig) -> (r: FillPlan)
    ensures
        r.store_mem == (cfg.has_mem_cache && cfg.should_cache),
        r.store_disk == (cfg.has_disk_cache && cfg.should_cache),
{
    FillPlan {
        store_mem: cfg.has_mem_cache && cfg.should_cache,
        store_disk: cfg.has_disk_cache && cfg.should_cache,
    }
}

/// The cache status a response reports: absent when no cache is
/// configured, otherwise `HIT` exactly when a cache answered.
pub fn response_status(cfg: &PipelineConfig, hit: bool) -> (r: Option<CacheStatus>)
    ensures
        r == if !cfg.has_mem_cache && !cfg.has_disk_cache {
            None::<CacheStatus>
        } else if hit {
            Some(CacheStatus::Hit)
        } else {
            Some(CacheStatus::Miss)
        },
{
    if !cfg.has_mem_cache && !cfg.has_disk_cache {
        None
    } else if hit {
        Some(CacheStatus::Hit)
    } else {
        Some(CacheStatus::Miss)
    }
}

/// The request-admission permit count: the configured concurrency, which
/// must be positive.
pub fn admission_permits(concurrency: usize) -> (r: usize)
    requires
        concurrency > 0,
    ensures
        r == concurrency,
{
    concurrency
}

} // verus!
