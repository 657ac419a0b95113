use wallpapers::colour::{string_to_colour, Colour};
use wallpapers::config::ImageProperties;
use wallpapers::frame::Frame;
use wallpapers::monitors::Monitor;
use wallpapers::ids::OriginalWallpaperID;
use wallpapers::wallpaper::{
    check_crop, crop_encoding, needs_translation, translate_image, Compression, Encoding, Filter,
    Finished, IntermediateFile, Res, UncachedFiles, Wallpaper,
};

fn crop(source: &Frame, uf: &UncachedFiles) -> Frame {
    let id = OriginalWallpaperID::from_rel_path("x.png");
    let monitors = vec![uf.m];
    Wallpaper::new(&id, &monitors).crop(source, uf)
}

fn finish(img: Frame, uf: &UncachedFiles, compress: bool, has_cache: bool) -> Finished {
    Wallpaper::<OriginalWallpaperID>::finish(img, uf, compress, has_cache)
}

fn gradient(width: u32, height: u32, channels: u8) -> Frame {
    let mut data = Vec::new();
    for y in 0..height {
        for x in 0..width {
            for c in 0..channels {
                let v = if c == 3 { 255 } else { (x * 7 + y * 13 + c as u32 * 29) % 251 };
                data.push(v as u8);
            }
        }
    }
    Frame::new(width, height, channels, data).unwrap()
}

fn pixel(f: &Frame, x: u32, y: u32) -> Vec<u8> {
    let ch = f.channels() as usize;
    let at = (y as usize * f.width() as usize + x as usize) * ch;
    f.as_raw()[at..at + ch].to_vec()
}

fn record(m: Monitor, props: Option<ImageProperties>) -> UncachedFiles {
    UncachedFiles {
        m,
        props,
        cropped: Some(IntermediateFile::MustBeWritten("/t/c.png".to_string())),
        scale: 1,
        scaled: IntermediateFile::MustBeWritten("/t/s.png".to_string()),
        final_file: "/cache/f.png".to_string(),
    }
}

fn monitor(width: u32, height: u32) -> Monitor {
    Monitor { width, height, top: 0, left: 0 }
}

#[test]
fn a_frame_needs_a_buffer_of_the_right_length() {
    assert!(Frame::new(2, 2, 3, vec![0; 12]).is_some());
    assert!(Frame::new(2, 2, 4, vec![0; 16]).is_some());
    assert!(Frame::new(2, 2, 3, vec![0; 11]).is_none());
    assert!(Frame::new(2, 2, 4, vec![0; 12]).is_none());
    assert!(Frame::new(2, 2, 2, vec![0; 8]).is_none());
    assert!(Frame::new(0, 5, 3, Vec::new()).is_some());
    let f = Frame::new(2, 1, 3, vec![1, 2, 3, 4, 5, 6]).unwrap();
    assert_eq!((f.width(), f.height(), f.channels()), (2, 1, 3));
    assert_eq!(f.into_raw(), vec![1, 2, 3, 4, 5, 6]);
}

#[test]
fn cropping_takes_the_insets_off() {
    let source = gradient(3000, 2000, 4);
    let mut p = ImageProperties::default();
    p.left = Some(200);
    p.right = Some(200);
    assert!(check_crop(Res { w: 3000, h: 2000 }, &p));
    let out = crop(&source, &record(monitor(2600, 2000), Some(p)));
    assert_eq!((out.width(), out.height(), out.channels()), (2600, 2000, 4));
    for (x, y) in [(0u32, 0u32), (1, 0), (2599, 0), (0, 1999), (2599, 1999), (1300, 1000)] {
        assert_eq!(pixel(&out, x, y), pixel(&source, x + 200, y));
    }
}

#[test]
fn padding_adds_bars_in_the_background_colour() {
    let source = gradient(800, 600, 4);
    let mut p = ImageProperties::default();
    p.left = Some(-400);
    p.right = Some(-400);
    p.background = string_to_colour("white");
    let out = crop(&source, &record(monitor(1600, 600), Some(p)));
    assert_eq!((out.width(), out.height()), (1600, 600));
    for y in [0u32, 299, 599] {
        for x in [0u32, 1, 399] {
            assert_eq!(pixel(&out, x, y), vec![255, 255, 255, 255]);
        }
        for x in [1200u32, 1201, 1599] {
            assert_eq!(pixel(&out, x, y), vec![255, 255, 255, 255]);
        }
        for x in [400u32, 401, 1199] {
            assert_eq!(pixel(&out, x, y), pixel(&source, x - 400, y));
        }
    }
}

#[test]
fn padding_defaults_to_opaque_black() {
    let source = gradient(4, 4, 4);
    let mut p = ImageProperties::default();
    p.top = Some(-1);
    p.bottom = Some(1);
    let out = crop(&source, &record(monitor(4, 4), Some(p)));
    assert_eq!((out.width(), out.height()), (4, 4));
    assert_eq!(pixel(&out, 2, 0), vec![0, 0, 0, 255]);
    assert_eq!(pixel(&out, 2, 1), pixel(&source, 2, 0));
    assert_eq!(pixel(&out, 3, 3), pixel(&source, 3, 2));
}

#[test]
fn transparent_pixels_show_the_background() {
    let data = vec![10, 20, 30, 0, 40, 50, 60, 255, 200, 100, 0, 128];
    let source = Frame::new(3, 1, 4, data).unwrap();
    let mut p = ImageProperties::default();
    p.background = Some(Colour { r: 255, g: 255, b: 255, a: 255 });
    let out = crop(&source, &record(monitor(3, 1), Some(p)));
    assert_eq!(pixel(&out, 0, 0), vec![255, 255, 255, 255]);
    assert_eq!(pixel(&out, 1, 0), vec![40, 50, 60, 255]);
    let mixed = pixel(&out, 2, 0);
    assert!(mixed[3] >= 254);
    assert!(mixed[0] > 200 && mixed[1] > 100 && mixed[1] < 255 && mixed[2] > 0 && mixed[2] < 255);
    assert_ne!(mixed, vec![200, 100, 0, 128]);
    assert_ne!(mixed, vec![255, 255, 255, 255]);
}

#[test]
fn a_crop_that_leaves_nothing_is_refused() {
    let mut p = ImageProperties::default();
    p.left = Some(500);
    p.right = Some(300);
    assert!(!check_crop(Res { w: 800, h: 600 }, &p));
    p.right = Some(299);
    assert!(check_crop(Res { w: 800, h: 600 }, &p));
}

#[test]
fn translation_moves_the_image_and_fills_with_white() {
    let source = gradient(10, 8, 3);
    let moved = translate_image(gradient(10, 8, 3), 3, 0);
    assert_eq!((moved.width(), moved.height(), moved.channels()), (10, 8, 3));
    for y in 0..8 {
        for x in 0..7 {
            assert_eq!(pixel(&moved, x, y), pixel(&source, x + 3, y));
        }
        for x in 7..10 {
            assert_eq!(pixel(&moved, x, y), vec![255, 255, 255]);
        }
    }
    let down = translate_image(gradient(10, 8, 3), 0, 2);
    for x in 0..10 {
        assert_eq!(pixel(&down, x, 0), vec![255, 255, 255]);
        assert_eq!(pixel(&down, x, 1), vec![255, 255, 255]);
        for y in 2..8 {
            assert_eq!(pixel(&down, x, y), pixel(&source, x, y - 2));
        }
    }
    let left = translate_image(gradient(10, 8, 3), -4, -1);
    assert_eq!(pixel(&left, 4, 0), pixel(&source, 0, 1));
    assert_eq!(pixel(&left, 3, 0), vec![255, 255, 255]);
    assert_eq!(pixel(&left, 9, 7), vec![255, 255, 255]);
}

#[test]
fn translation_by_nothing_changes_nothing() {
    let source = gradient(9, 5, 3);
    let same = translate_image(gradient(9, 5, 3), 0, 0);
    assert_eq!(same.as_raw(), source.as_raw());
}

#[test]
fn translation_beyond_the_canvas_leaves_white() {
    let gone = translate_image(gradient(6, 4, 3), 100, 0);
    assert!(gone.as_raw().iter().all(|&b| b == 255));
    let gone = translate_image(gradient(6, 4, 3), 0, i64::MIN);
    assert!(gone.as_raw().iter().all(|&b| b == 255));
    let gone = translate_image(gradient(6, 4, 3), i64::MAX, i64::MAX);
    assert!(gone.as_raw().iter().all(|&b| b == 255));
}

#[test]
fn translating_there_and_back_keeps_what_stayed_on_the_canvas() {
    let source = gradient(12, 9, 3);
    let back = translate_image(translate_image(gradient(12, 9, 3), 3, -2), -3, 2);
    for y in 0..9u32 {
        for x in 0..12u32 {
            if x >= 3 && y >= 2 {
                assert_eq!(pixel(&back, x, y), pixel(&source, x, y));
            } else {
                assert_eq!(pixel(&back, x, y), vec![255, 255, 255]);
            }
        }
    }
}

#[test]
fn translation_is_needed_only_for_percentages() {
    let m = monitor(10, 10);
    assert!(!needs_translation(&record(m, None)));
    let mut p = ImageProperties::default();
    p.top = Some(3);
    assert!(!needs_translation(&record(m, Some(p))));
    let mut p = ImageProperties::default();
    p.horizontal = wallpapers::config::Percent::new("5");
    assert!(needs_translation(&record(m, Some(p))));
}

#[test]
fn finishing_an_image_of_the_right_size_keeps_it() {
    let source = gradient(16, 9, 3);
    let done = finish(gradient(16, 9, 3), &record(monitor(16, 9), None), false, false);
    assert_eq!((done.image.width(), done.image.height()), (16, 9));
    assert_eq!(done.image.as_raw(), source.as_raw());
    assert_eq!(
        done.png,
        Some(Encoding { compression: Compression::Fast, filter: Filter::NoFilter })
    );
    assert_eq!(crop_encoding(), Encoding { compression: Compression::Fast, filter: Filter::Sub });
}

#[test]
fn finishing_takes_the_middle_of_a_larger_image() {
    let source = gradient(20, 9, 3);
    let done = finish(gradient(20, 9, 3), &record(monitor(16, 9), None), true, true);
    assert_eq!((done.image.width(), done.image.height()), (16, 9));
    for (x, y) in [(0u32, 0u32), (15, 8), (7, 4)] {
        assert_eq!(pixel(&done.image, x, y), pixel(&source, x + 2, y));
    }
    assert_eq!(
        done.png,
        Some(Encoding { compression: Compression::Best, filter: Filter::NoFilter })
    );
    let tall = finish(gradient(16, 12, 3), &record(monitor(16, 9), None), false, true);
    assert_eq!((tall.image.width(), tall.image.height()), (16, 9));
    assert_eq!(pixel(&tall.image, 3, 0), pixel(&gradient(16, 12, 3), 3, 1));
    assert_eq!(tall.png, None);
}

#[test]
fn finishing_keeps_a_smaller_image_whole() {
    let small = finish(gradient(10, 5, 3), &record(monitor(16, 9), None), false, false);
    assert_eq!((small.image.width(), small.image.height()), (10, 5));
    assert_eq!(small.image.as_raw(), gradient(10, 5, 3).as_raw());
}

#[test]
fn a_square_display_keeps_an_image_as_wide_as_it() {
    let done = finish(gradient(8, 12, 3), &record(monitor(8, 8), None), false, false);
    assert_eq!((done.image.width(), done.image.height()), (8, 12));
}

#[test]
fn frames_are_swizzled_to_bgra() {
    let rgb = Frame::new(2, 1, 3, vec![1, 2, 3, 4, 5, 6]).unwrap();
    assert_eq!(rgb.to_bgra().into_raw(), vec![3, 2, 1, 255, 6, 5, 4, 255]);
    let rgba = Frame::new(1, 2, 4, vec![1, 2, 3, 9, 4, 5, 6, 8]).unwrap();
    let out = rgba.to_bgra();
    assert_eq!((out.width(), out.height(), out.channels()), (1, 2, 4));
    assert_eq!(out.into_raw(), vec![3, 2, 1, 9, 6, 5, 4, 8]);
}

#[test]
fn remap_copies_a_window() {
    let source = gradient(5, 4, 3);
    let window = source.remap(3, 2, 1, 1, 0);
    assert_eq!((window.width(), window.height()), (3, 2));
    assert_eq!(pixel(&window, 0, 0), pixel(&source, 1, 1));
    assert_eq!(pixel(&window, 2, 1), pixel(&source, 3, 2));
    let beyond = source.remap(2, 2, 4, 3, 7);
    assert_eq!(pixel(&beyond, 0, 0), pixel(&source, 4, 3));
    assert_eq!(pixel(&beyond, 1, 0), vec![7, 7, 7]);
    assert_eq!(pixel(&beyond, 0, 1), vec![7, 7, 7]);
}
