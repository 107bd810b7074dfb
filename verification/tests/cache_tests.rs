use std::sync::Arc;
use track_overlay::cache::FrameCache;
use track_overlay::video::DecodedFrame;

fn frame(pts_ms: i64, byte: u8) -> DecodedFrame {
    DecodedFrame {
        data: Arc::new(vec![byte; 4]),
        width: 1,
        height: 1,
        pts_ms,
    }
}

#[test]
fn a_cached_frame_is_found_near_its_time() {
    let mut c = FrameCache::new(4);
    c.insert(3000, frame(100, 7));
    let f = c.find_near(100).unwrap();
    assert_eq!(f.pts_ms, 100);
    assert_eq!(*f.data, vec![7; 4]);
    assert_eq!(c.find_near(139).unwrap().pts_ms, 100);
    assert_eq!(c.find_near(61).unwrap().pts_ms, 100);
    assert!(c.find_near(140).is_none());
    assert!(c.find_near(60).is_none());
}

#[test]
fn an_empty_cache_finds_nothing() {
    let c = FrameCache::new(1);
    assert!(c.find_near(0).is_none());
}

#[test]
fn the_most_recently_used_near_frame_wins() {
    let mut c = FrameCache::new(4);
    c.insert(1, frame(100, 1));
    c.insert(2, frame(120, 2));
    assert_eq!(c.find_near(110).unwrap().pts_ms, 120);
    // Putting the first key again makes it the most recent.
    c.insert(1, frame(100, 3));
    let f = c.find_near(110).unwrap();
    assert_eq!((f.pts_ms, f.data[0]), (100, 3));
}

#[test]
fn a_full_cache_drops_its_least_recently_used_frame() {
    let mut c = FrameCache::new(2);
    c.insert(1, frame(0, 1));
    c.insert(2, frame(1000, 2));
    c.insert(3, frame(2000, 3));
    assert!(c.find_near(0).is_none());
    assert_eq!(c.find_near(1000).unwrap().data[0], 2);
    assert_eq!(c.find_near(2000).unwrap().data[0], 3);
}
