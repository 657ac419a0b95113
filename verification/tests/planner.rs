use wallpapers::config::{Config, ImageProperties, Properties};
use wallpapers::ids::{OriginalWallpaperID, TempWallpaperID};
use wallpapers::monitors::Monitor;
use wallpapers::wallpaper::{
    is_fresh, nothing_to_build, resize_for, runs, upscale_failure_is_fatal, IntermediateFile, Mtime,
    Res, Stage, UncachedFiles, Wallpaper,
};

fn config() -> Config {
    Config {
        database: "/db".to_string(),
        originals_directory: "/originals".to_string(),
        cache_directory: "/cache".to_string(),
        temp_dir: None,
        alternate_upscaler: None,
        upscaling_jobs: 1,
        gpu_prefix: String::new(),
    }
}

fn monitor(width: u32, height: u32) -> Monitor {
    Monitor { width, height, top: 0, left: 0 }
}

fn path_of(f: &IntermediateFile) -> (String, bool) {
    (f.path().to_string(), f.must_be_written())
}

#[test]
fn scale_is_the_smallest_power_of_two_that_covers() {
    let source = Res { w: 800, h: 600 };
    assert_eq!(source.get_scale(&None, &monitor(3200, 2400)), 4);
    assert_eq!(source.get_scale(&None, &monitor(800, 600)), 1);
    assert_eq!(source.get_scale(&None, &monitor(400, 300)), 1);
    assert_eq!(source.get_scale(&None, &monitor(801, 600)), 2);
    assert_eq!(source.get_scale(&None, &monitor(1600, 1201)), 4);
    assert_eq!(source.get_scale(&None, &monitor(3201, 600)), 8);
    assert_eq!(source.get_scale(&None, &monitor(12800, 600)), 16);
    assert_eq!(source.get_scale(&None, &monitor(25600, 19200)), 32);
}

#[test]
fn scale_never_exceeds_thirty_two() {
    let tiny = Res { w: 10, h: 10 };
    assert_eq!(tiny.get_scale(&None, &monitor(3840, 2160)), 32);
    assert_eq!(tiny.get_scale(&None, &monitor(640, 10)), 32);
    assert_eq!(tiny.get_scale(&None, &monitor(u32::MAX, u32::MAX)), 32);
    for (w, h) in [(1u32, 1u32), (37, 91), (1920, 1080), (5000, 3)] {
        for (mw, mh) in [(1u32, 1u32), (640, 480), (3840, 2160), (99999, 7)] {
            let s = Res { w, h }.get_scale(&None, &monitor(mw, mh));
            assert!(s >= 1 && s <= 32 && s.is_power_of_two());
            let covers = s as u64 * w as u64 >= mw as u64 && s as u64 * h as u64 >= mh as u64;
            assert!(covers || s == 32);
            if s > 1 {
                let half = (s / 2) as u64;
                assert!(half * (w as u64) < mw as u64 || half * (h as u64) < mh as u64);
            }
        }
    }
}

#[test]
fn an_empty_image_has_scale_one() {
    assert!(Res { w: 0, h: 600 }.is_empty());
    assert!(Res { w: 800, h: 0 }.is_empty());
    assert!(!Res { w: 1, h: 1 }.is_empty());
    assert_eq!(Res { w: 0, h: 600 }.get_scale(&None, &monitor(1920, 1080)), 1);
    let mut p = ImageProperties::default();
    p.left = Some(800);
    assert_eq!(Res { w: 800, h: 600 }.get_scale(&Some(p), &monitor(1920, 1080)), 1);
}

#[test]
fn scale_is_taken_after_cropping_and_padding() {
    let mut p = ImageProperties::default();
    p.left = Some(200);
    p.right = Some(200);
    let source = Res { w: 3000, h: 2000 };
    assert_eq!(source.apply_crop_pad(&p), Res { w: 2600, h: 2000 });
    assert_eq!(source.get_scale(&Some(p), &monitor(2600, 2000)), 1);
    let mut pad = ImageProperties::default();
    pad.left = Some(-400);
    pad.right = Some(-400);
    pad.top = Some(10);
    assert_eq!(Res { w: 800, h: 600 }.apply_crop_pad(&pad), Res { w: 1600, h: 590 });
    let mut all = ImageProperties::default();
    all.top = Some(400);
    all.bottom = Some(400);
    assert_eq!(Res { w: 800, h: 600 }.apply_crop_pad(&all), Res { w: 800, h: 0 });
    assert_eq!(Res::from((3, 4)), Res { w: 3, h: 4 });
}

#[test]
fn a_preview_without_settings_needs_no_crop_and_no_scale() {
    let c = config();
    let monitors = vec![monitor(1920, 1080)];
    let id = TempWallpaperID::new("/pics/x.png", ImageProperties::default(), "/tmp/final");
    let w = Wallpaper::new(&id, &monitors);
    let store = Properties::new();
    let finals = w.final_paths(&c, &store);
    assert_eq!(finals, vec!["/tmp/final/1920x1080/x.png.png".to_string()]);
    let plan = w.get_uncached_files(
        &c,
        &store,
        &vec![false],
        Res { w: 1920, h: 1080 },
        "/tmp/work",
        &Vec::new(),
    );
    assert_eq!(plan.len(), 1);
    assert!(plan[0].cropped.is_none());
    assert_eq!(plan[0].scale, 1);
    assert!(plan[0].final_file.ends_with("/1920x1080/x.png.png"));
    assert_eq!(path_of(&plan[0].scaled), ("/tmp/work/x.png-1.png".to_string(), true));
}

#[test]
fn a_library_image_without_settings_ends_in_its_own_name() {
    let c = config();
    let monitors = vec![monitor(1920, 1080)];
    let id = OriginalWallpaperID::from_rel_path("x.png");
    let w = Wallpaper::new(&id, &monitors);
    let finals = w.final_paths(&c, &Properties::new());
    assert_eq!(finals, vec!["/cache/1920x1080/x.png.png".to_string()]);
}

#[test]
fn two_displays_of_one_size_share_one_build() {
    let c = config();
    let monitors = vec![monitor(1920, 1080), monitor(1920, 1080)];
    let id = OriginalWallpaperID::from_rel_path("a/w.jpg");
    let w = Wallpaper::new(&id, &monitors);
    let store = Properties::new();
    let finals = w.final_paths(&c, &store);
    assert_eq!(finals.len(), 2);
    assert_eq!(finals[0], finals[1]);
    let plan = w.get_uncached_files(
        &c,
        &store,
        &vec![false, false],
        Res { w: 960, h: 540 },
        "/tmp/work",
        &Vec::new(),
    );
    assert_eq!(plan.len(), 1);
    assert_eq!(plan[0].scale, 2);
    let source = Res { w: 960, h: 540 };
    let crop = w.process(&plan, source, None, false).unwrap();
    assert_eq!(crop.stage, Stage::Crop);
    assert!(crop.tasks.is_empty());
    let up = w.process(&plan, source, Some(Stage::Crop), false).unwrap();
    assert_eq!(up.stage, Stage::Upscale);
    assert_eq!(up.tasks, vec![0]);
    let fin = w.process(&plan, source, Some(Stage::Upscale), false).unwrap();
    assert_eq!(fin.stage, Stage::Finish);
    assert_eq!(fin.tasks, vec![0]);
    assert!(w.process(&plan, source, Some(Stage::Finish), false).is_none());
}

#[test]
fn displays_of_different_sizes_share_the_upscaled_file() {
    let c = config();
    let monitors = vec![monitor(1920, 1080), monitor(1920, 1200), monitor(1920, 1080)];
    let id = OriginalWallpaperID::from_rel_path("w.jpg");
    let w = Wallpaper::new(&id, &monitors);
    let store = Properties::new();
    let plan = w.get_uncached_files(
        &c,
        &store,
        &vec![false, false, false],
        Res { w: 4000, h: 3000 },
        "/tmp/work",
        &Vec::new(),
    );
    assert_eq!(plan.len(), 2);
    assert_eq!(plan[0].final_file, "/cache/1920x1080/w.jpg.png");
    assert_eq!(plan[1].final_file, "/cache/1920x1200/w.jpg.png");
    assert_eq!(path_of(&plan[0].scaled), ("/tmp/work/w.jpg-1-.png".to_string(), true));
    assert_eq!(path_of(&plan[1].scaled), ("/tmp/work/w.jpg-1-.png".to_string(), false));
    let up = w.process(&plan, Res { w: 4000, h: 3000 }, Some(Stage::Crop), false).unwrap();
    assert_eq!(up.tasks, vec![0]);
    let fin = w.process(&plan, Res { w: 4000, h: 3000 }, Some(Stage::Upscale), false).unwrap();
    assert_eq!(fin.tasks, vec![0, 1]);
}

#[test]
fn fresh_final_files_are_not_built_again() {
    let c = config();
    let monitors = vec![monitor(1920, 1080), monitor(2560, 1440)];
    let id = OriginalWallpaperID::from_rel_path("w.jpg");
    let w = Wallpaper::new(&id, &monitors);
    let store = Properties::new();
    let source = Res { w: 800, h: 600 };
    let plan = w.get_uncached_files(&c, &store, &vec![true, true], source, "/t", &Vec::new());
    assert!(plan.is_empty());
    assert!(w.process(&plan, source, None, false).is_none());
    let plan = w.get_uncached_files(&c, &store, &vec![true, false], source, "/t", &Vec::new());
    assert_eq!(plan.len(), 1);
    assert_eq!(plan[0].m, monitor(2560, 1440));
    assert_eq!(plan[0].scale, 4);
}

#[test]
fn freshness_compares_modification_times() {
    let source = Mtime { secs: 100, nanos: 5 };
    assert!(!is_fresh(None, source));
    assert!(is_fresh(Some(Mtime { secs: 100, nanos: 5 }), source));
    assert!(is_fresh(Some(Mtime { secs: 101, nanos: 0 }), source));
    assert!(is_fresh(Some(Mtime { secs: 100, nanos: 6 }), source));
    assert!(!is_fresh(Some(Mtime { secs: 100, nanos: 4 }), source));
    assert!(!is_fresh(Some(Mtime { secs: 99, nanos: 999 }), source));
    assert!(nothing_to_build(&vec![true, true]));
    assert!(nothing_to_build(&Vec::new()));
    assert!(!nothing_to_build(&vec![true, false]));
}

#[test]
fn files_on_disk_are_not_written_again() {
    let c = config();
    let monitors = vec![monitor(2600, 2000)];
    let mut p = ImageProperties::default();
    p.left = Some(200);
    p.right = Some(200);
    let mut store = Properties::new();
    store.insert("w.png", p);
    let id = OriginalWallpaperID::from_rel_path("w.png");
    let w = Wallpaper::new(&id, &monitors);
    let source = Res { w: 3000, h: 2000 };
    let plan = w.get_uncached_files(&c, &store, &vec![false], source, "/t", &Vec::new());
    assert_eq!(plan.len(), 1);
    assert_eq!(plan[0].scale, 1);
    assert_eq!(
        plan[0].cropped.as_ref().map(path_of),
        Some(("/t/w.png0,0,200,200,.png".to_string(), true))
    );
    assert_eq!(path_of(&plan[0].scaled), ("/t/w.png0,0,200,200,-1-.png".to_string(), true));
    assert_eq!(plan[0].final_file, "/cache/2600x2000/w.png0,0,200,200,.png");
    let crop = w.process(&plan, source, None, false).unwrap();
    assert_eq!(crop.tasks, vec![0]);
    let on_disk = vec!["/t/w.png0,0,200,200,.png".to_string()];
    let plan = w.get_uncached_files(&c, &store, &vec![false], source, "/t", &on_disk);
    assert_eq!(
        plan[0].cropped.as_ref().map(path_of),
        Some(("/t/w.png0,0,200,200,.png".to_string(), false))
    );
    assert!(plan[0].scaled.must_be_written());
    let crop = w.process(&plan, source, None, false).unwrap();
    assert!(crop.tasks.is_empty());
}

#[test]
fn a_build_stops_between_stages_when_told_to() {
    let c = config();
    let monitors = vec![monitor(1920, 1080)];
    let id = OriginalWallpaperID::from_rel_path("w.jpg");
    let w = Wallpaper::new(&id, &monitors);
    let source = Res { w: 800, h: 600 };
    let plan =
        w.get_uncached_files(&c, &Properties::new(), &vec![false], source, "/t", &Vec::new());
    assert!(w.process(&plan, source, None, false).is_some());
    assert!(w.process(&plan, source, None, true).is_none());
    assert!(w.process(&plan, source, Some(Stage::Crop), true).is_none());
    assert!(w.process(&plan, source, Some(Stage::Upscale), true).is_none());
    assert!(w.process(&plan, Res { w: 0, h: 0 }, None, false).is_none());
}

#[test]
fn the_upscaler_gets_the_scale_and_the_default_denoise_level() {
    let c = config();
    let monitors = vec![monitor(3200, 2400)];
    let id = OriginalWallpaperID::from_rel_path("w.jpg");
    let w = Wallpaper::new(&id, &monitors);
    let source = Res { w: 800, h: 600 };
    let plan =
        w.get_uncached_files(&c, &Properties::new(), &vec![false], source, "/t", &Vec::new());
    let job = w.upscale(&c, &plan[0]);
    assert_eq!(job.scale, 4);
    assert_eq!(job.denoise, 1);
    assert_eq!(job.input, "/originals/w.jpg");
    assert_eq!(job.output, "/t/w.jpg-4-.png");
    assert_eq!(resize_for(Res { w: 3200, h: 2400 }, &monitors[0]), None);
}

#[test]
fn the_upscaler_reads_the_cropped_file_where_there_is_one() {
    let c = config();
    let id = OriginalWallpaperID::from_rel_path("w.jpg");
    let mut p = ImageProperties::default();
    p.denoise = Some(3);
    let uf = UncachedFiles {
        m: monitor(100, 100),
        props: Some(p),
        cropped: Some(IntermediateFile::AlreadyExists("/t/c.png".to_string())),
        scale: 2,
        scaled: IntermediateFile::MustBeWritten("/t/s.png".to_string()),
        final_file: "/cache/f.png".to_string(),
    };
    let monitors = vec![monitor(100, 100)];
    let job = Wallpaper::new(&id, &monitors).upscale(&c, &uf);
    assert_eq!(job.input, "/t/c.png");
    assert_eq!(job.output, "/t/s.png");
    assert_eq!(job.scale, 2);
    assert_eq!(job.denoise, 3);
    assert!(upscale_failure_is_fatal(false));
    assert!(!upscale_failure_is_fatal(true));
}

#[test]
fn resizing_covers_the_display() {
    let m = monitor(1920, 1080);
    assert_eq!(resize_for(Res { w: 1920, h: 1080 }, &m), None);
    assert_eq!(resize_for(Res { w: 1920, h: 3000 }, &m), Some(Res { w: 1920, h: 3000 }));
    assert_eq!(resize_for(Res { w: 1920, h: 1000 }, &m), Some(Res { w: 2074, h: 1080 }));
    assert_eq!(resize_for(Res { w: 960, h: 1080 }, &m), Some(Res { w: 1920, h: 2160 }));
    assert_eq!(resize_for(Res { w: 3840, h: 2160 }, &m), Some(Res { w: 1920, h: 1080 }));
    assert_eq!(resize_for(Res { w: 4000, h: 3000 }, &m), Some(Res { w: 1920, h: 1440 }));
    assert_eq!(resize_for(Res { w: 3000, h: 1000 }, &m), Some(Res { w: 3240, h: 1080 }));
    assert_eq!(resize_for(Res { w: 3, h: 2 }, &monitor(10, 5)), Some(Res { w: 10, h: 7 }));
    assert_eq!(resize_for(Res { w: 7, h: 2 }, &monitor(10, 1)), Some(Res { w: 10, h: 3 }));
    assert_eq!(resize_for(Res { w: 0, h: 2 }, &monitor(10, 1)), None);
    assert_eq!(
        resize_for(Res { w: 1, h: 4_000_000_000 }, &monitor(1000, 1)),
        Some(Res { w: 1000, h: u32::MAX })
    );
}

#[test]
fn no_task_starts_once_the_build_was_told_to_wind_down() {
    let c = config();
    let monitors = vec![monitor(2600, 2000)];
    let mut p = ImageProperties::default();
    p.left = Some(200);
    p.right = Some(200);
    let mut store = Properties::new();
    store.insert("w.png", p);
    let id = OriginalWallpaperID::from_rel_path("w.png");
    let w = Wallpaper::new(&id, &monitors);
    let source = Res { w: 3000, h: 2000 };
    let plan = w.get_uncached_files(&c, &store, &vec![false], source, "/t", &Vec::new());
    assert!(runs(false));
    assert!(!runs(true));
    assert!(w.crop_task(&c, &plan[0], true).is_none());
    assert!(w.upscale_task(&c, &plan[0], true).is_none());
    assert!(Wallpaper::<OriginalWallpaperID>::finish_task(&plan[0], true).is_none());
    let crop = w.crop_task(&c, &plan[0], false).unwrap();
    assert_eq!(crop.input, "/originals/w.png");
    assert_eq!(crop.output, "/t/w.png0,0,200,200,.png");
    let up = w.upscale_task(&c, &plan[0], false).unwrap();
    assert_eq!(up.input, "/t/w.png0,0,200,200,.png");
    assert_eq!(up.output, "/t/w.png0,0,200,200,-1-.png");
    assert_eq!((up.scale, up.denoise), (1, 1));
    let fin = Wallpaper::<OriginalWallpaperID>::finish_task(&plan[0], false).unwrap();
    assert_eq!(fin.input, "/t/w.png0,0,200,200,-1-.png");
    assert_eq!(fin.output, "/cache/2600x2000/w.png0,0,200,200,.png");
}

#[test]
fn a_record_without_a_cropped_file_has_no_crop_task() {
    let c = config();
    let monitors = vec![monitor(1920, 1080)];
    let id = OriginalWallpaperID::from_rel_path("w.jpg");
    let w = Wallpaper::new(&id, &monitors);
    let source = Res { w: 800, h: 600 };
    let plan =
        w.get_uncached_files(&c, &Properties::new(), &vec![false], source, "/t", &Vec::new());
    assert!(w.crop_task(&c, &plan[0], false).is_none());
}
