//! The in-memory LRU cache: accounting, replacement, eviction order.

use imaged::image_types::{ImageOutput, ImageType, InputImageType, ProcessOptions};
use imaged::memcache::MemoryCache;

fn opts(width: Option<u32>) -> ProcessOptions {
    ProcessOptions { width, height: None, out_type: None, quality: None, blur: None }
}

fn output(bytes: Vec<u8>) -> ImageOutput {
    ImageOutput {
        buf: bytes,
        img_type: ImageType::Jpeg,
        width: 10,
        height: 20,
        orig_size: 123,
        orig_type: InputImageType::Png,
        orig_width: 100,
        orig_height: 200,
    }
}

#[test]
fn get_after_set_returns_stored_value() {
    let mut cache = MemoryCache::new(1000);
    cache.set("http://a/img.png", opts(Some(10)), output(vec![1, 2, 3]));
    let hit = cache.get("http://a/img.png", opts(Some(10))).expect("expected a hit");
    assert_eq!(hit.buf, vec![1, 2, 3]);
    assert_eq!(hit.width, 10);
    assert_eq!(hit.orig_height, 200);
}

#[test]
fn distinct_options_are_distinct_entries() {
    let mut cache = MemoryCache::new(1000);
    cache.set("http://a/img.png", opts(Some(10)), output(vec![1]));
    cache.set("http://a/img.png", opts(Some(20)), output(vec![2]));
    assert_eq!(cache.get("http://a/img.png", opts(Some(10))).unwrap().buf, vec![1]);
    assert_eq!(cache.get("http://a/img.png", opts(Some(20))).unwrap().buf, vec![2]);
    assert!(cache.get("http://a/img.png", opts(Some(30))).is_none());
    assert!(cache.get("http://b/img.png", opts(Some(10))).is_none());
}

#[test]
fn replacement_keeps_latest_value() {
    let mut cache = MemoryCache::new(1000);
    cache.set("u", opts(None), output(vec![1, 1, 1]));
    cache.set("u", opts(None), output(vec![9, 9]));
    assert_eq!(cache.get("u", opts(None)).unwrap().buf, vec![9, 9]);
}

#[test]
fn eviction_pops_least_recently_used() {
    // budget for roughly two 4-byte entries
    let mut cache = MemoryCache::new(8);
    cache.set("a", opts(None), output(vec![0; 4]));
    cache.set("b", opts(None), output(vec![1; 4]));
    // touch "a" so "b" is the least recently used
    assert!(cache.get("a", opts(None)).is_some());
    cache.set("c", opts(None), output(vec![2; 4]));
    assert!(cache.get("b", opts(None)).is_none(), "the LRU entry must be gone");
    assert!(cache.get("a", opts(None)).is_some());
    assert!(cache.get("c", opts(None)).is_some());
}

#[test]
fn oversized_entry_is_retained_alone() {
    let mut cache = MemoryCache::new(4);
    cache.set("small", opts(None), output(vec![7; 2]));
    cache.set("big", opts(None), output(vec![8; 100]));
    // the oversized entry displaced everything else but is itself kept
    assert!(cache.get("small", opts(None)).is_none());
    assert_eq!(cache.get("big", opts(None)).unwrap().buf.len(), 100);
}

#[test]
fn set_never_evicts_the_entry_just_stored() {
    let mut cache = MemoryCache::new(1);
    cache.set("k", opts(None), output(vec![5; 50]));
    assert_eq!(cache.get("k", opts(None)).unwrap().buf.len(), 50);
}
