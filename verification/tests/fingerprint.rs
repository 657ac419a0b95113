use wallpapers::colour::{colour_to_string, string_to_colour, Colour};
use wallpapers::config::{
    empty_path_is_none, one, zero_is_none, Config, ImageProperties, Percent, Properties,
};
use wallpapers::ids::{
    relative_from_slash, slash_from_relative, OriginalWallpaperID, TempWallpaperID, WallpaperID,
};
use wallpapers::monitors::{gcd_of, supports_memory_papers, Monitor, Platform};
use wallpapers::text::decimal;

fn config() -> Config {
    Config {
        database: "/home/u/.db".to_string(),
        originals_directory: "/home/u/originals".to_string(),
        cache_directory: "/home/u/cache".to_string(),
        temp_dir: None,
        alternate_upscaler: None,
        upscaling_jobs: 1,
        gpu_prefix: String::new(),
    }
}

fn monitor(width: u32, height: u32) -> Monitor {
    Monitor { width, height, top: 0, left: 0 }
}

#[test]
fn empty_settings_have_no_fingerprint() {
    let p = ImageProperties::default();
    assert!(p.is_empty());
    assert_eq!(p.crop_pad_string(), "");
    assert_eq!(p.full_string(), "");
    let id = OriginalWallpaperID::from_rel_path("a/x.png");
    assert_eq!(id.cropped_rel_path(&Some(p)), None);
}

#[test]
fn crop_pad_string_lists_insets_and_background() {
    let mut p = ImageProperties::default();
    p.left = Some(200);
    p.right = Some(-5);
    p.background = string_to_colour("white");
    assert_eq!(p.background, Some(Colour { r: 255, g: 255, b: 255, a: 255 }));
    assert_eq!(p.crop_pad_string(), "0,0,200,-5,255255255255");
    assert_eq!(p.full_string(), "0,0,200,-5,255255255255");
    p.vertical = Percent::new("12.5");
    assert_eq!(p.full_string(), "0,0,200,-5,255255255255-0,12.5,0");
    assert!(!p.is_empty());
}

#[test]
fn full_string_without_insets_starts_with_a_dash() {
    let mut p = ImageProperties::default();
    p.denoise = Some(3);
    assert_eq!(p.crop_pad_string(), "");
    assert_eq!(p.full_string(), "-3,0,0");
    p.horizontal = Percent::new("-7");
    assert_eq!(p.full_string(), "-3,0,-7");
}

#[test]
fn background_alone_makes_a_crop_pad_string() {
    let mut p = ImageProperties::default();
    p.background = Some(Colour { r: 1, g: 2, b: 3, a: 255 });
    assert_eq!(p.crop_pad_string(), "0,0,0,0,123255");
}

#[test]
fn different_settings_have_different_fingerprints() {
    let mut a = ImageProperties::default();
    a.top = Some(12);
    a.bottom = Some(3);
    let mut b = ImageProperties::default();
    b.top = Some(1);
    b.bottom = Some(23);
    assert_ne!(a.full_string(), b.full_string());
    let mut c = ImageProperties::default();
    c.denoise = Some(-1);
    let mut d = ImageProperties::default();
    d.denoise = Some(1);
    assert_ne!(c.full_string(), d.full_string());
}

#[test]
fn an_empty_override_keeps_settings_empty() {
    let mut p = ImageProperties::default();
    p.set_override("16".to_string(), "9".to_string(), &ImageProperties::default());
    assert_eq!(p.nested.len(), 1);
    assert!(p.is_empty());
    let mut inner = ImageProperties::default();
    inner.denoise = Some(3);
    p.set_override("16".to_string(), "10".to_string(), &inner);
    assert!(!p.is_empty());
    assert_eq!(p.full_string(), "");
    assert_eq!(p.skip_nested_empties(), vec![0, 1]);
}

#[test]
fn overrides_of_an_empty_width_are_skipped() {
    let mut p = ImageProperties::default();
    p.set_override("4".to_string(), "3".to_string(), &ImageProperties::default());
    let mut inner = ImageProperties::default();
    inner.top = Some(1);
    p.set_override("16".to_string(), "9".to_string(), &inner);
    assert_eq!(p.skip_nested_empties(), vec![1]);
}

#[test]
fn clone_leaves_the_overrides_behind() {
    let mut p = ImageProperties::default();
    p.top = Some(4);
    p.vertical = Percent::new("1.5");
    let mut inner = ImageProperties::default();
    inner.denoise = Some(3);
    p.set_override("16".to_string(), "9".to_string(), &inner);
    let c = p.clone();
    assert_eq!(c.top, Some(4));
    assert_eq!(c.vertical.as_ref().map(|v| v.as_str().to_string()), Some("1.5".to_string()));
    assert!(c.nested.is_empty());
}

#[test]
fn copy_from_keeps_the_overrides() {
    let mut p = ImageProperties::default();
    p.set_override("16".to_string(), "9".to_string(), &ImageProperties::default());
    let mut other = ImageProperties::default();
    other.left = Some(9);
    other.background = string_to_colour("A1B2C3");
    p.copy_from(&other);
    assert_eq!(p.left, Some(9));
    assert_eq!(p.background, Some(Colour { r: 0xa1, g: 0xb2, b: 0xc3, a: 255 }));
    assert_eq!(p.nested.len(), 1);
}

#[test]
fn describe_lists_the_fields_that_are_set() {
    let mut p = ImageProperties::default();
    assert_eq!(p.describe(), "");
    p.vertical = Percent::new("2.5");
    p.left = Some(-3);
    p.denoise = Some(2);
    p.background = Some(Colour { r: 255, g: 0, b: 16, a: 255 });
    assert_eq!(p.describe(), "vertical = 2.5\nleft = -3\ndenoise = 2\nbackground = ff0010\n");
}

#[test]
fn percent_follows_its_grammar() {
    assert!(Percent::new("0").is_some());
    assert!(Percent::new("-12.75").is_some());
    assert!(Percent::new("100").is_some());
    assert!(Percent::new("").is_none());
    assert!(Percent::new("-").is_none());
    assert!(Percent::new("1.").is_none());
    assert!(Percent::new(".5").is_none());
    assert!(Percent::new("1.2.3").is_none());
    assert!(Percent::new("1,5").is_none());
    assert!(Percent::new("NaN").is_none());
    assert!(Percent::new("inf").is_none());
    assert!(Percent::new("1-2").is_none());
    assert_eq!(Percent::new("3.25").unwrap().as_str(), "3.25");
}

#[test]
fn percent_knows_zero() {
    assert!(Percent::new("0").unwrap().is_zero());
    assert!(Percent::new("-0.00").unwrap().is_zero());
    assert!(!Percent::new("0.01").unwrap().is_zero());
    assert!(!Percent::new("10").unwrap().is_zero());
}

#[test]
fn colours_are_parsed_in_either_case() {
    assert_eq!(string_to_colour("black"), Some(Colour { r: 0, g: 0, b: 0, a: 255 }));
    assert_eq!(string_to_colour("BLACK"), Some(Colour { r: 0, g: 0, b: 0, a: 255 }));
    assert_eq!(string_to_colour("White"), Some(Colour { r: 255, g: 255, b: 255, a: 255 }));
    assert_eq!(string_to_colour("a1b2c3"), Some(Colour { r: 0xa1, g: 0xb2, b: 0xc3, a: 255 }));
    assert_eq!(string_to_colour("00FF7f"), Some(Colour { r: 0, g: 255, b: 0x7f, a: 255 }));
}

#[test]
fn colours_that_are_no_colours_are_refused() {
    assert_eq!(string_to_colour(""), None);
    assert_eq!(string_to_colour("red"), None);
    assert_eq!(string_to_colour("12345"), None);
    assert_eq!(string_to_colour("1234567"), None);
    assert_eq!(string_to_colour("12345g"), None);
    assert_eq!(string_to_colour("+12345"), None);
}

#[test]
fn colours_are_written_in_lower_case() {
    assert_eq!(colour_to_string(Colour { r: 0, g: 0, b: 0, a: 255 }), "black");
    assert_eq!(colour_to_string(Colour { r: 255, g: 255, b: 255, a: 0 }), "white");
    assert_eq!(colour_to_string(Colour { r: 0xa1, g: 0x0b, b: 0xff, a: 255 }), "a10bff");
    let c = Colour { r: 18, g: 52, b: 86, a: 255 };
    assert_eq!(string_to_colour(&colour_to_string(c)), Some(c));
}

#[test]
fn decimal_writes_integers() {
    assert_eq!(decimal(0), "0");
    assert_eq!(decimal(7), "7");
    assert_eq!(decimal(-1), "-1");
    assert_eq!(decimal(1920), "1920");
    assert_eq!(decimal(i64::MAX), "9223372036854775807");
    assert_eq!(decimal(i64::MIN), "-9223372036854775808");
}

#[test]
fn library_paths_are_derived_from_the_identity() {
    let c = config();
    let id = OriginalWallpaperID::from_rel_path("nature/x.png");
    assert_eq!(id.slash_path(), "nature/x.png");
    assert_eq!(id.original_abs_path(&c), "/home/u/originals/nature/x.png");
    let m = monitor(1920, 1080);
    assert_eq!(m.cache_dir(&c), "/home/u/cache/1920x1080");
    assert_eq!(id.cached_abs_path(&c, &m, &None), "/home/u/cache/1920x1080/nature/x.png.png");
    let mut p = ImageProperties::default();
    p.left = Some(200);
    p.right = Some(200);
    p.denoise = Some(2);
    let ip = Some(p);
    assert_eq!(
        id.cached_abs_path(&c, &m, &ip),
        "/home/u/cache/1920x1080/nature/x.png0,0,200,200,-2,0,0.png"
    );
    assert_eq!(id.cropped_rel_path(&ip), Some("x.png0,0,200,200,.png".to_string()));
    assert_eq!(id.upscaled_rel_path(4, &ip), "x.png0,0,200,200,-2-4-.png");
    assert_eq!(id.upscaled_rel_path(1, &None), "x.png-1-.png");
    let deep = OriginalWallpaperID::from_rel_path("dir/x.png");
    assert_eq!(deep.upscaled_rel_path(4, &None), "x.png-4-.png");
    assert_eq!(deep.upscaled_rel_path(4, &Some(ImageProperties::default())), "x.png-4-.png");
    assert_eq!(id.cropped_rel_path(&None), None);
}

#[test]
fn the_same_inputs_give_the_same_paths() {
    let c = config();
    let m = monitor(2560, 1440);
    let mut p = ImageProperties::default();
    p.top = Some(10);
    p.vertical = Percent::new("3");
    let a = OriginalWallpaperID::from_rel_path("a/b.jpg");
    let b = OriginalWallpaperID::from_rel_path("a/b.jpg");
    let ip = Some(p);
    assert_eq!(a.cached_abs_path(&c, &m, &ip), b.cached_abs_path(&c, &m, &ip));
    assert_eq!(a.cached_abs_path(&c, &m, &ip), a.cached_abs_path(&c, &m, &ip));
    assert_eq!(a.cropped_rel_path(&ip), b.cropped_rel_path(&ip));
    assert_eq!(a.upscaled_rel_path(2, &ip), b.upscaled_rel_path(2, &ip));
}

#[test]
fn a_cache_root_with_a_separator_gets_no_second_one() {
    let mut c = config();
    c.cache_directory = "/cache/".to_string();
    let id = OriginalWallpaperID::from_rel_path("x.png");
    assert_eq!(id.cached_abs_path(&c, &monitor(800, 600), &None), "/cache/800x600/x.png.png");
}

#[test]
fn preview_paths_use_the_captured_name() {
    let c = config();
    let mut p = ImageProperties::default();
    p.top = Some(5);
    let mut id = TempWallpaperID::new("/tmp/in/pic.png", p, "/tmp/wp");
    assert_eq!(id.original_abs_path(&c), "/tmp/in/pic.png");
    let m = monitor(1920, 1080);
    let ip = id.get_props(&Properties::new(), &m);
    assert_eq!(ip.as_ref().and_then(|p| p.top), Some(5));
    assert_eq!(id.cached_abs_path(&c, &m, &ip), "/tmp/wp/1920x1080/pic.png5,0,0,0,.png");
    assert_eq!(id.cropped_rel_path(&ip), Some("pic.png5,0,0,0,.png".to_string()));
    assert_eq!(id.upscaled_rel_path(2, &ip), "pic.png5,0,0,0,-2.png");
    assert_eq!(id.slash_path(&c), None);
    id.set_original_path(&c, "/home/u/originals/new/pic2.png".to_string());
    assert_eq!(id.slash_path(&c), Some("new/pic2.png".to_string()));
    assert_eq!(id.original_abs_path(&c), "/home/u/originals/new/pic2.png");
    assert_eq!(id.upscaled_rel_path(2, &ip), "pic.png5,0,0,0,-2.png");
    assert_eq!(id.props().top, Some(5));
    id.set_props(ImageProperties::default());
    assert_eq!(id.props().top, None);
}

#[test]
fn an_override_for_the_aspect_ratio_wins() {
    let mut top = ImageProperties::default();
    top.denoise = Some(2);
    let mut inner = ImageProperties::default();
    inner.denoise = Some(3);
    top.set_override("16".to_string(), "9".to_string(), &inner);
    let mut store = Properties::new();
    store.insert("x.png", top);
    let id = OriginalWallpaperID::from_rel_path("x.png");
    let wide = id.get_props(&store, &monitor(2560, 1440)).unwrap();
    assert_eq!(wide.denoise, Some(3));
    assert!(wide.nested.is_empty());
    let other = id.get_props(&store, &monitor(1920, 1200)).unwrap();
    assert_eq!(other.denoise, Some(2));
    assert!(other.nested.is_empty());
    let unknown = OriginalWallpaperID::from_rel_path("y.png");
    assert!(unknown.get_props(&store, &monitor(2560, 1440)).is_none());
}

#[test]
fn the_store_maps_paths_to_settings() {
    let mut store = Properties::new();
    assert_eq!(store.len(), 0);
    let mut a = ImageProperties::default();
    a.top = Some(1);
    store.insert("a.png", a);
    store.insert("b.png", ImageProperties::default());
    assert_eq!(store.len(), 2);
    assert!(store.contains_key("a.png"));
    assert!(!store.contains_key("c.png"));
    assert_eq!(store.get("a.png").unwrap().top, Some(1));
    assert!(store.get("c.png").is_none());
    let mut keys = store.keys();
    keys.sort();
    assert_eq!(keys, vec!["a.png".to_string(), "b.png".to_string()]);
    assert_eq!(store.skip_empties(), vec!["a.png".to_string()]);
    let mut a2 = ImageProperties::default();
    a2.top = Some(2);
    store.insert("a.png", a2);
    assert_eq!(store.len(), 2);
    assert_eq!(store.get("a.png").unwrap().top, Some(2));
    assert_eq!(store.remove("a.png").unwrap().top, Some(2));
    assert!(store.remove("a.png").is_none());
    assert_eq!(store.len(), 1);
}

#[test]
fn update_stores_settings_for_an_image_or_an_aspect_ratio() {
    let mut store = Properties::new();
    let mut new = ImageProperties::default();
    new.left = Some(7);
    store.update("a.png", None, &new);
    assert_eq!(store.get("a.png").unwrap().left, Some(7));
    let mut wide = ImageProperties::default();
    wide.left = Some(9);
    store.update("a.png", Some((16, 9)), &wide);
    let stored = store.get("a.png").unwrap();
    assert_eq!(stored.left, Some(7));
    assert_eq!(stored.nested.len(), 1);
    assert_eq!(stored.nested[0].x, "16");
    assert_eq!(stored.nested[0].y, "9");
    assert_eq!(stored.nested[0].props.left, Some(9));
    wide.left = Some(11);
    store.update("a.png", Some((16, 9)), &wide);
    let stored = store.get("a.png").unwrap();
    assert_eq!(stored.nested.len(), 1);
    assert_eq!(stored.nested[0].props.left, Some(11));
    store.update("b.png", Some((4, 3)), &wide);
    let b = store.get("b.png").unwrap();
    assert_eq!(b.left, None);
    assert_eq!(b.nested[0].props.left, Some(11));
}

#[test]
fn the_aspect_ratio_is_in_lowest_terms() {
    assert_eq!(monitor(2560, 1440).aspect(), (16, 9));
    assert_eq!(monitor(1920, 1200).aspect(), (8, 5));
    assert_eq!(monitor(1000, 1000).aspect(), (1, 1));
    assert_eq!(monitor(7, 3).aspect(), (7, 3));
    assert_eq!(gcd_of(2560, 1440), 160);
    assert_eq!(gcd_of(0, 5), 5);
    assert_eq!(gcd_of(5, 0), 5);
    assert_eq!(monitor(1920, 1080).res_string(), "1920x1080");
    assert!(monitor(1, 1).is_valid());
    assert!(!monitor(0, 1).is_valid());
}

#[test]
fn only_x11_applies_frames_from_memory() {
    assert!(supports_memory_papers(Platform::X11));
    assert!(!supports_memory_papers(Platform::Windows));
    assert!(!supports_memory_papers(Platform::Unknown));
}

#[test]
fn separators_are_exchanged_at_the_boundary() {
    assert_eq!(relative_from_slash("a/b/c.png", '/'), "a/b/c.png");
    assert_eq!(relative_from_slash("a/b/c.png", '\\'), "a\\b\\c.png");
    assert_eq!(slash_from_relative("a\\b\\c.png", '\\'), "a/b/c.png");
    assert_eq!(slash_from_relative(&relative_from_slash("x/y.jpg", '\\'), '\\'), "x/y.jpg");
}

#[test]
fn configuration_defaults() {
    assert_eq!(one(), 1);
    assert_eq!(empty_path_is_none(String::new()), None);
    assert_eq!(empty_path_is_none("/tmp".to_string()), Some("/tmp".to_string()));
    assert_eq!(zero_is_none(0), None);
    assert_eq!(zero_is_none(-4), Some(-4));
    let mut c = config();
    assert!(c.is_valid());
    c.upscaling_jobs = 0;
    assert!(!c.is_valid());
}

#[test]
fn the_channels_of_a_background_are_written_without_separators() {
    let mut a = ImageProperties::default();
    a.background = Some(Colour { r: 1, g: 11, b: 1, a: 255 });
    let mut b = ImageProperties::default();
    b.background = Some(Colour { r: 11, g: 1, b: 1, a: 255 });
    assert_eq!(a.crop_pad_string(), "0,0,0,0,1111255");
    assert_eq!(a.crop_pad_string(), b.crop_pad_string());
}

#[test]
fn an_unset_number_is_written_as_zero() {
    let mut a = ImageProperties::default();
    a.vertical = Percent::new("5");
    let mut b = ImageProperties::default();
    b.vertical = Percent::new("5");
    b.denoise = Some(0);
    assert_eq!(a.full_string(), "-0,5,0");
    assert_eq!(a.full_string(), b.full_string());
}
