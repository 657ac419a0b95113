use wallpapers::cache::FrameCache;
use wallpapers::frame::Frame;
use wallpapers::monitors::Monitor;
use wallpapers::wallpaper::{cache_final, finish_cached, IntermediateFile, UncachedFiles};

fn frame(v: u8) -> Frame {
    Frame::new(1, 1, 4, vec![v, v, v, 255]).unwrap()
}

fn record(final_file: &str) -> UncachedFiles {
    UncachedFiles {
        m: Monitor { width: 1, height: 1, top: 0, left: 0 },
        props: None,
        cropped: None,
        scale: 1,
        scaled: IntermediateFile::MustBeWritten("/t/s.png".to_string()),
        final_file: final_file.to_string(),
    }
}

#[test]
fn the_cache_hands_back_what_was_put() {
    let mut cache = FrameCache::new(2);
    assert!(cache.peek("a").is_none());
    assert!(!cache.touch("a"));
    cache.put("a".to_string(), frame(1));
    assert_eq!(cache.peek("a").unwrap().as_raw(), &vec![1, 1, 1, 255]);
    assert!(cache.touch("a"));
    cache.put("a".to_string(), frame(9));
    assert_eq!(cache.peek("a").unwrap().as_raw(), &vec![9, 9, 9, 255]);
    assert!(cache.peek("b").is_none());
}

#[test]
fn the_least_recently_used_frame_goes_first() {
    let mut cache = FrameCache::new(2);
    cache.put("a".to_string(), frame(1));
    cache.put("b".to_string(), frame(2));
    assert!(cache.touch("a"));
    cache.put("c".to_string(), frame(3));
    assert!(cache.peek("b").is_none());
    assert!(cache.peek("a").is_some());
    assert!(cache.peek("c").is_some());
}

#[test]
fn peeking_does_not_count_as_use() {
    let mut cache = FrameCache::new(2);
    cache.put("a".to_string(), frame(1));
    cache.put("b".to_string(), frame(2));
    assert!(cache.peek("a").is_some());
    cache.put("c".to_string(), frame(3));
    assert!(cache.peek("a").is_none());
    assert!(cache.peek("b").is_some());
}

#[test]
fn the_file_cache_is_small() {
    assert_eq!(FrameCache::file_cache_size(), 5);
}

#[test]
fn the_display_cache_holds_three_frames_for_each_display() {
    let mut cache = FrameCache::for_displays(1);
    for key in ["a", "b", "c", "d"] {
        cache.put(key.to_string(), frame(0));
    }
    assert!(cache.peek("a").is_none());
    assert!(cache.peek("b").is_some());
    assert!(cache.peek("c").is_some());
    assert!(cache.peek("d").is_some());
}

#[test]
fn a_cached_final_frame_ends_the_finish_stage_early() {
    let mut cache = FrameCache::new(3);
    let uf = record("/cache/1x1/a.png");
    assert!(!finish_cached(&mut cache, &uf));
    let rgb = Frame::new(1, 1, 3, vec![10, 20, 30]).unwrap();
    cache_final(&mut cache, &uf, &rgb);
    assert!(finish_cached(&mut cache, &uf));
    assert_eq!(cache.peek("/cache/1x1/a.png").unwrap().as_raw(), &vec![30, 20, 10, 255]);
    assert!(!finish_cached(&mut cache, &record("/cache/1x1/b.png")));
}
