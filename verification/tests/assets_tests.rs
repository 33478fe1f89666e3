use mockup_studio::assets::{rendition_pixels, rendition_window, AssetCache, ResizeKey, RESIZE_CACHE_LIMIT};

fn key(path: &str, w: u32) -> ResizeKey {
    ResizeKey { path: path.to_string(), width: w, height: 10, crop: None }
}

#[test]
fn cached_images_are_found_by_path() {
    let mut c: AssetCache<u32> = AssetCache::new();
    assert_eq!(c.cached_image(&"a.png".to_string()), None);
    c.store_image("a.png".to_string(), 1);
    c.store_image("b.png".to_string(), 2);
    assert_eq!(c.cached_image(&"a.png".to_string()), Some(&1));
    assert_eq!(c.cached_image(&"b.png".to_string()), Some(&2));
    c.store_image("a.png".to_string(), 3);
    assert_eq!(c.cached_image(&"a.png".to_string()), Some(&3));
}

#[test]
fn renditions_are_told_apart_by_size_and_crop() {
    let mut c: AssetCache<u32> = AssetCache::new();
    c.store_rendition(key("a.png", 100), 1);
    let cropped = ResizeKey { crop: Some((0, 0, 0x3F80_0000, 0x3F00_0000)), ..key("a.png", 100) };
    assert_eq!(c.cached_rendition(&cropped), None);
    c.store_rendition(ResizeKey { crop: Some((0, 0, 0x3F80_0000, 0x3F00_0000)), ..key("a.png", 100) }, 2);
    assert_eq!(c.cached_rendition(&key("a.png", 100)), Some(&1));
    assert_eq!(c.cached_rendition(&cropped), Some(&2));
    assert_eq!(c.cached_rendition(&key("a.png", 101)), None);
}

#[test]
fn a_full_rendition_cache_starts_over() {
    let mut c: AssetCache<u32> = AssetCache::new();
    for w in 0..RESIZE_CACHE_LIMIT as u32 {
        c.store_rendition(key("a.png", w), w);
    }
    assert_eq!(c.cached_rendition(&key("a.png", 0)), Some(&0));
    assert_eq!(c.cached_rendition(&key("a.png", 63)), Some(&63));
    c.store_rendition(key("b.png", 5), 500);
    assert_eq!(c.cached_rendition(&key("b.png", 5)), Some(&500));
    assert_eq!(c.cached_rendition(&key("a.png", 0)), None);
    assert_eq!(c.cached_rendition(&key("a.png", 63)), None);
}

#[test]
fn invalidating_a_file_forgets_its_image_and_renditions() {
    let mut c: AssetCache<u32> = AssetCache::new();
    c.store_image("a.png".to_string(), 1);
    c.store_image("b.png".to_string(), 2);
    c.store_rendition(key("a.png", 10), 10);
    c.store_rendition(key("a.png", 20), 20);
    c.store_rendition(key("b.png", 10), 30);
    c.invalidate(&"a.png".to_string());
    assert_eq!(c.cached_image(&"a.png".to_string()), None);
    assert_eq!(c.cached_image(&"b.png".to_string()), Some(&2));
    assert_eq!(c.cached_rendition(&key("a.png", 10)), None);
    assert_eq!(c.cached_rendition(&key("a.png", 20)), None);
    assert_eq!(c.cached_rendition(&key("b.png", 10)), Some(&30));
}

/// A 3 x 2 image whose pixel (x, y) is (10x, 10y, 7, 255).
fn grid() -> Vec<u8> {
    let mut v = Vec::new();
    for y in 0..2u8 {
        for x in 0..3u8 {
            v.extend_from_slice(&[10 * x, 10 * y, 7, 255]);
        }
    }
    v
}

#[test]
fn a_rendition_window_is_the_cropped_part() {
    let (bytes, w, h) = rendition_window(&grid(), 3, 2, (1, 0, 2, 2));
    let expect: Vec<u8> = [[10u8, 0, 7, 255], [20, 0, 7, 255], [10, 10, 7, 255], [20, 10, 7, 255]].concat();
    assert_eq!((bytes, w, h), (expect, 2, 2));
}

#[test]
fn a_window_reaching_past_the_image_is_clamped() {
    assert_eq!(rendition_window(&grid(), 3, 2, (2, 1, 5, 5)), (vec![20, 10, 7, 255], 1, 1));
    assert_eq!(rendition_window(&grid(), 3, 2, (9, 9, 4, 4)), (vec![], 0, 0));
    assert_eq!(rendition_window(&grid(), 3, 2, (0, 1, 0, 0)), (vec![], 0, 0));
}

#[test]
fn renditions_have_the_target_size() {
    assert_eq!(rendition_pixels(&grid(), 3, 2, None, 5, 4).len(), 5 * 4 * 4);
    assert_eq!(rendition_pixels(&grid(), 3, 2, Some((1, 0, 2, 2)), 3, 3).len(), 3 * 3 * 4);
    assert_eq!(rendition_pixels(&grid(), 3, 2, Some((9, 9, 4, 4)), 2, 2).len(), 16);
}
