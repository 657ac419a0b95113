use wallpapers::config::{Config, ImageProperties, Properties};
use wallpapers::groups::{group_equal, merge_duplicates};
use wallpapers::ids::OriginalWallpaperID;
use wallpapers::monitors::Monitor;
use wallpapers::sweep::{
    ancestors, monitor_dirs, next_phase, next_wallpaper, sweep, unmatched_properties, valid_files,
    SyncPhase,
};

fn config() -> Config {
    Config {
        database: "/db".to_string(),
        originals_directory: "/originals".to_string(),
        cache_directory: "/cache".to_string(),
        temp_dir: None,
        alternate_upscaler: None,
        upscaling_jobs: 1,
        gpu_prefix: String::new(),
    }
}

fn monitor(width: u32, height: u32) -> Monitor {
    Monitor { width, height, top: 0, left: 0 }
}

fn strings(list: &[&str]) -> Vec<String> {
    list.iter().map(|s| s.to_string()).collect()
}

#[test]
fn every_image_is_wanted_on_every_display() {
    let c = config();
    let ids =
        vec![OriginalWallpaperID::from_rel_path("a.png"), OriginalWallpaperID::from_rel_path("d/b.jpg")];
    let monitors = vec![monitor(1920, 1080), monitor(800, 600)];
    let mut store = Properties::new();
    let mut p = ImageProperties::default();
    p.top = Some(3);
    store.insert("d/b.jpg", p);
    let mut valid = valid_files(&c, &store, &ids, &monitors);
    valid.sort();
    assert_eq!(
        valid,
        strings(&[
            "/cache/1920x1080/a.png.png",
            "/cache/1920x1080/d/b.jpg3,0,0,0,.png",
            "/cache/800x600/a.png.png",
            "/cache/800x600/d/b.jpg3,0,0,0,.png",
        ])
    );
    assert_eq!(monitor_dirs(&c, &monitors), strings(&["/cache/1920x1080", "/cache/800x600"]));
}

#[test]
fn the_sweep_deletes_what_is_not_wanted() {
    let valid = strings(&["/cache/1920x1080/a.png.png"]);
    let dirs = strings(&["/cache/1920x1080"]);
    let files = strings(&[
        "/cache/1920x1080/a.png.png",
        "/cache/1920x1080/old.png.png",
        "/cache/800x600/a.png.png",
        "/cache/1920x10800/x.png",
    ]);
    assert_eq!(sweep(&files, false, &dirs, &valid), vec![1]);
    assert_eq!(sweep(&files, true, &dirs, &valid), vec![1, 2, 3]);
    let doomed = sweep(&files, true, &dirs, &valid);
    for (i, f) in files.iter().enumerate() {
        assert!(doomed.contains(&i) || valid.contains(f));
    }
    assert!(sweep(&Vec::new(), true, &dirs, &valid).is_empty());
}

#[test]
fn empty_directories_are_removed_up_to_the_cache_root() {
    assert_eq!(
        ancestors("/cache/1920x1080/a/b/c.png", "/cache"),
        strings(&["/cache/1920x1080/a/b", "/cache/1920x1080/a", "/cache/1920x1080"])
    );
    assert_eq!(ancestors("/cache/c.png", "/cache"), Vec::<String>::new());
    assert_eq!(ancestors("/elsewhere/a/c.png", "/cache"), Vec::<String>::new());
}

#[test]
fn settings_without_an_image_are_reported() {
    let ids = vec![OriginalWallpaperID::from_rel_path("a.png")];
    let mut store = Properties::new();
    store.insert("a.png", ImageProperties::default());
    store.insert("gone.png", ImageProperties::default());
    store.insert("also/gone.jpg", ImageProperties::default());
    let mut unmatched = unmatched_properties(&store, &ids);
    unmatched.sort();
    assert_eq!(unmatched, strings(&["also/gone.jpg", "gone.png"]));
    assert!(unmatched_properties(&Properties::new(), &ids).is_empty());
}

#[test]
fn displays_with_the_same_wallpaper_are_merged() {
    let selection = vec![
        OriginalWallpaperID::from_rel_path("a.png"),
        OriginalWallpaperID::from_rel_path("b.png"),
        OriginalWallpaperID::from_rel_path("a.png"),
    ];
    let groups = merge_duplicates(&selection);
    assert_eq!(groups.len(), 2);
    assert_eq!(groups[0].key, "a.png");
    assert_eq!(groups[0].members, vec![0, 2]);
    assert_eq!(groups[1].key, "b.png");
    assert_eq!(groups[1].members, vec![1]);
}

#[test]
fn displays_that_want_the_same_file_are_grouped() {
    let groups = group_equal(&strings(&["/c/x.png", "/c/y.png", "/c/x.png", "/c/x.png"]));
    assert_eq!(groups.len(), 2);
    assert_eq!((groups[0].key.as_str(), groups[0].members.clone()), ("/c/x.png", vec![0, 2, 3]));
    assert_eq!((groups[1].key.as_str(), groups[1].members.clone()), ("/c/y.png", vec![1]));
    assert!(group_equal(&Vec::new()).is_empty());
}

#[test]
fn a_sync_that_is_told_to_wind_down_does_not_sweep() {
    assert_eq!(next_phase(None, false), Some(SyncPhase::Compact));
    assert_eq!(next_phase(None, true), Some(SyncPhase::Compact));
    assert_eq!(next_phase(Some(SyncPhase::Compact), false), Some(SyncPhase::Build));
    assert_eq!(next_phase(Some(SyncPhase::Compact), true), None);
    assert_eq!(next_phase(Some(SyncPhase::Build), false), Some(SyncPhase::Sweep));
    assert_eq!(next_phase(Some(SyncPhase::Build), true), None);
    assert_eq!(next_phase(Some(SyncPhase::Sweep), false), None);
    assert_eq!(next_wallpaper(0, 3, false), Some(0));
    assert_eq!(next_wallpaper(2, 3, false), Some(2));
    assert_eq!(next_wallpaper(3, 3, false), None);
    assert_eq!(next_wallpaper(0, 3, true), None);
}
