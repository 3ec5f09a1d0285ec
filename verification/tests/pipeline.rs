use gridx2::app_config::AppConfig;
use gridx2::image_cache::ImageCache;
use gridx2::image_entry::{
    calculate_size, load_and_resize_image, CacheStats, ImageEntry, ImageLoadError,
};

fn tiny_png(width: u32, height: u32) -> Vec<u8> {
    let img = image::RgbaImage::new(width, height);
    let mut buf = std::io::Cursor::new(Vec::new());
    img.write_to(&mut buf, image::ImageFormat::Png).unwrap();
    buf.into_inner()
}

fn entry(path: &str) -> ImageEntry {
    ImageEntry { image_path: path.to_string(), image: None }
}

#[test]
fn aspect_fit_known_values() {
    assert_eq!(calculate_size(1600, 900, 200), (200, 112));
    assert_eq!(calculate_size(900, 1600, 200), (112, 200));
    assert_eq!(calculate_size(200, 200, 200), (200, 200));
}

#[test]
fn aspect_fit_square_keeps_height_branch() {
    // a square image takes the branch that fixes the height
    assert_eq!(calculate_size(100, 100, 64), (64, 64));
    assert_eq!(calculate_size(3, 4, 2), (1, 2));
    assert_eq!(calculate_size(4, 3, 2), (2, 1));
}

#[test]
fn decode_and_resize_fits_the_box() {
    let bytes = tiny_png(10, 5);
    let buf = load_and_resize_image(&bytes, 4).unwrap();
    assert_eq!(buf.width, 4);
    assert_eq!(buf.height, 2);
    assert_eq!(buf.stride, 16);
    assert_eq!(buf.pixels.len(), 32);
}

#[test]
fn decode_handles_jpeg_bytes_too() {
    let img = image::RgbaImage::new(9, 3);
    let rgb = image::DynamicImage::ImageRgba8(img).to_rgb8();
    let mut buf = std::io::Cursor::new(Vec::new());
    rgb.write_to(&mut buf, image::ImageFormat::Jpeg).unwrap();
    let thumb = load_and_resize_image(&buf.into_inner(), 3).unwrap();
    assert_eq!(thumb.width, 3);
    assert_eq!(thumb.height, 1);
    assert_eq!(thumb.pixels.len(), 12);
}

#[test]
fn oversize_dimensions_are_rejected() {
    let bytes = tiny_png(2, 2);
    let r = load_and_resize_image(&bytes, u32::MAX);
    assert!(matches!(r, Err(ImageLoadError::Oversize)));
}

#[test]
fn decode_rejects_garbage_bytes() {
    let bytes = vec![0u8, 1, 2, 3, 4, 5, 6, 7];
    let r = load_and_resize_image(&bytes, 64);
    assert!(matches!(r, Err(ImageLoadError::Decode)));
}

#[test]
fn load_image_decodes_on_miss_and_fills_the_cache() {
    let mut cache = ImageCache::new(8);
    let mut stats = CacheStats::new();
    let bytes = tiny_png(8, 8);
    let mut e = entry("/pics/one.png");
    let r = e.load_image(&mut cache, &mut stats, 4, Some(&bytes));
    assert!(r.is_ok());
    assert_eq!(stats.misses, 1);
    assert_eq!(stats.hits, 0);
    let thumb = e.image.as_ref().unwrap();
    assert_eq!((thumb.width, thumb.height), (4, 4));
    assert!(cache.get("/pics/one.png").is_some());
}

#[test]
fn load_image_reuses_the_cache_without_redecoding() {
    let mut cache = ImageCache::new(8);
    let mut stats = CacheStats::new();
    let bytes = tiny_png(6, 3);
    let mut first = entry("/pics/a.png");
    first.load_image(&mut cache, &mut stats, 4, Some(&bytes)).unwrap();
    assert_eq!(stats.misses, 1);

    // a second pass over the same folder: fresh records, same paths
    let mut second = entry("/pics/a.png");
    let r = second.load_image(&mut cache, &mut stats, 4, None);
    assert!(r.is_ok());
    assert_eq!(stats.misses, 1, "a cached image must not be decoded again");
    assert_eq!(stats.hits, 1);
    let thumb = second.image.as_ref().unwrap();
    assert_eq!((thumb.width, thumb.height), (4, 2));
}

#[test]
fn load_image_skips_entries_already_loaded() {
    let mut cache = ImageCache::new(8);
    let mut stats = CacheStats::new();
    let bytes = tiny_png(2, 2);
    let mut e = entry("/pics/b.png");
    e.load_image(&mut cache, &mut stats, 2, Some(&bytes)).unwrap();
    let r = e.load_image(&mut cache, &mut stats, 2, Some(&bytes));
    assert!(r.is_ok());
    assert_eq!(stats.misses, 1);
    assert_eq!(stats.hits, 0);
}

#[test]
fn load_image_reports_unreadable_files() {
    let mut cache = ImageCache::new(8);
    let mut stats = CacheStats::new();
    let mut e = entry("/pics/gone.png");
    let r = e.load_image(&mut cache, &mut stats, 4, None);
    assert!(matches!(r, Err(ImageLoadError::Unreadable)));
    assert!(e.image.is_none());
    assert_eq!(stats.misses, 1);
    assert_eq!(cache.size(), 0);
}

#[test]
fn load_image_leaves_the_record_empty_on_decode_failure() {
    let mut cache = ImageCache::new(8);
    let mut stats = CacheStats::new();
    let garbage = vec![1u8, 2, 3];
    let mut e = entry("/pics/broken.png");
    let r = e.load_image(&mut cache, &mut stats, 4, Some(&garbage));
    assert!(matches!(r, Err(ImageLoadError::Decode)));
    assert!(e.image.is_none());
    assert_eq!(stats.misses, 1);
    assert_eq!(cache.size(), 0);
}

#[test]
fn default_config_values() {
    let c = AppConfig::default();
    assert_eq!(c.max_depth, 2);
    assert_eq!(c.thumbnail_size, 200);
    assert_eq!(c.open_command, vec!["xdg-open".to_string(), "<path>".to_string()]);
    assert_eq!(c.dark_mode, Some(true));
}
