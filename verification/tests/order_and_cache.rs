use gridx2::image_cache::ImageCache;
use gridx2::image_entry::{clear_cache, CacheStats};
use gridx2::order::{natural_sort, str_lex_cmp, Comparison};
use gridx2::pixel::PixelBuffer;
use gridx2::progress::ProgressTracker;

fn buffer(tag: u8) -> PixelBuffer {
    PixelBuffer { width: 1, height: 1, stride: 4, pixels: vec![tag, tag, tag, 255] }
}

#[test]
fn natural_sort_orders_numeric_runs_by_value() {
    assert_eq!(natural_sort("img2.png", "img10.png"), Comparison::Less);
    assert_eq!(natural_sort("a.png", "a.png"), Comparison::Equal);
    assert_eq!(natural_sort("b.png", "a10.png"), Comparison::Greater);
}

#[test]
fn natural_sort_ties_on_leading_zeros_fall_through() {
    // equal numeric value with different digits is a tie at that segment
    assert_eq!(natural_sort("img01.png", "img1.png"), Comparison::Equal);
    assert_eq!(natural_sort("img01b.png", "img1a.png"), Comparison::Greater);
    assert_eq!(natural_sort("a02.png", "a10.png"), Comparison::Less);
}

#[test]
fn natural_sort_handles_huge_numbers_exactly() {
    // values far beyond any machine word still compare by numeric value
    assert_eq!(
        natural_sort("v99999999999999999999998.png", "v99999999999999999999999.png"),
        Comparison::Less
    );
    assert_eq!(natural_sort("v100000000000000000000000.png", "v2.png"), Comparison::Greater);
}

#[test]
fn natural_sort_shorter_prefix_first() {
    assert_eq!(natural_sort("ab", "ab1"), Comparison::Less);
    assert_eq!(natural_sort("ab1", "ab"), Comparison::Greater);
    assert_eq!(natural_sort("", "a"), Comparison::Less);
}

#[test]
fn lex_compare_is_plain_code_point_order() {
    assert_eq!(str_lex_cmp("abc", "abd"), Comparison::Less);
    assert_eq!(str_lex_cmp("abc", "abc"), Comparison::Equal);
    assert_eq!(str_lex_cmp("img10", "img2"), Comparison::Less);
}

#[test]
fn sorting_keeps_every_entry_in_natural_order() {
    let mk = |p: &str| gridx2::image_entry::ImageEntry { image_path: p.to_string(), image: None };
    let mut v = vec![mk("/z2.png"), mk("/z10.png"), mk("/a.png"), mk("/z2.png")];
    gridx2::sorting::sort_image_entries(&mut v);
    let paths: Vec<&str> = v.iter().map(|e| e.image_path.as_str()).collect();
    assert_eq!(paths, vec!["/a.png", "/z2.png", "/z2.png", "/z10.png"]);
}

#[test]
fn cache_size_never_exceeds_capacity() {
    let mut cache = ImageCache::new(2);
    cache.insert("/a.png", buffer(1));
    cache.insert("/b.png", buffer(2));
    cache.insert("/c.png", buffer(3));
    assert_eq!(cache.size(), 2);
    // the oldest entry was evicted
    assert!(cache.get("/a.png").is_none());
    assert!(cache.get("/b.png").is_some());
    assert!(cache.get("/c.png").is_some());
}

#[test]
fn cache_reinserting_a_present_key_keeps_the_size() {
    let mut cache = ImageCache::new(2);
    cache.insert("/a.png", buffer(1));
    cache.insert("/b.png", buffer(2));
    assert_eq!(cache.size(), 2);
    cache.insert("/a.png", buffer(9));
    assert_eq!(cache.size(), 2);
    let got = cache.get("/a.png").unwrap();
    assert_eq!(got.pixels[0], 9);
    assert_eq!(cache.get("/b.png").unwrap().pixels[0], 2);
}

#[test]
fn cache_get_returns_what_was_inserted() {
    let mut cache = ImageCache::new(8);
    assert!(cache.get("/a.png").is_none());
    cache.insert("/a.png", buffer(7));
    let got = cache.get("/a.png").unwrap();
    assert_eq!(got.width, 1);
    assert_eq!(got.height, 1);
    assert_eq!(got.stride, 4);
    assert_eq!(got.pixels, vec![7, 7, 7, 255]);
}

#[test]
fn cache_update_refreshes_recency() {
    let mut cache = ImageCache::new(2);
    cache.insert("/a.png", buffer(1));
    cache.insert("/b.png", buffer(2));
    // touching /a.png makes /b.png the oldest
    cache.insert("/a.png", buffer(1));
    cache.insert("/c.png", buffer(3));
    assert!(cache.get("/a.png").is_some());
    assert!(cache.get("/b.png").is_none());
    assert!(cache.get("/c.png").is_some());
}

#[test]
fn cache_remove_takes_the_entry_out() {
    let mut cache = ImageCache::new(4);
    cache.insert("/a.png", buffer(1));
    let removed = cache._remove("/a.png");
    assert!(removed.is_some());
    assert_eq!(removed.unwrap().pixels[0], 1);
    assert_eq!(cache.size(), 0);
    assert!(cache.get("/a.png").is_none());
    assert!(cache._remove("/missing.png").is_none());
}

#[test]
fn cache_with_zero_capacity_stores_nothing() {
    let mut cache = ImageCache::new(0);
    cache.insert("/a.png", buffer(1));
    assert_eq!(cache.size(), 0);
    assert!(cache.get("/a.png").is_none());
}

#[test]
fn clear_cache_resets_all_counters() {
    let mut stats = CacheStats::new();
    stats.hits = 3;
    stats.misses = 5;
    stats.disk_load_time_ms = 120;
    stats.cache_access_time_ns = 999;
    clear_cache(&mut stats);
    assert_eq!(stats.hits, 0);
    assert_eq!(stats.misses, 0);
    assert_eq!(stats.disk_load_time_ms, 0);
    assert_eq!(stats.cache_access_time_ns, 0);
}

#[test]
fn progress_is_monotone_and_ends_at_one() {
    let k = 5;
    let mut tracker = ProgressTracker::new(k);
    let mut fractions: Vec<(usize, usize)> = Vec::new();
    for _ in 0..k {
        assert!(!tracker.is_done());
        tracker.record_completion();
        fractions.push(tracker.progress());
    }
    for pair in fractions.windows(2) {
        assert!(pair[0].0 <= pair[1].0);
        assert_eq!(pair[0].1, pair[1].1);
    }
    let last = fractions.last().unwrap();
    assert_eq!(last.0, last.1);
    assert!(tracker.is_done());
}

#[test]
fn progress_of_an_empty_folder_is_immediately_done() {
    let tracker = ProgressTracker::new(0);
    assert!(tracker.is_done());
    assert_eq!(tracker.progress(), (0, 0));
}
