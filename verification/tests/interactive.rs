use wallpapers::closing::{close, closed, new_flag};
use wallpapers::colour::Colour;
use wallpapers::config::{ImageProperties, Percent};
use wallpapers::interactive::{
    ConsoleHistory, install_destination, install_plan, parse_i32, parse_install, parse_res, split_command, Command,
    InstallPlan, Refusal,
};

#[test]
fn the_flag_stays_up_once_raised() {
    let flag = new_flag();
    assert!(!closed(&flag));
    close(&flag);
    assert!(closed(&flag));
    close(&flag);
    assert!(closed(&flag));
}

#[test]
fn resolutions_are_reduced() {
    assert_eq!(parse_res("1920x1080"), Ok(Some((16, 9))));
    assert_eq!(parse_res("  16x10 "), Ok(Some((8, 5))));
    assert_eq!(parse_res("16x 9"), Ok(Some((16, 9))));
    assert_eq!(parse_res("+4x+3"), Ok(Some((4, 3))));
    assert_eq!(parse_res(""), Ok(None));
    assert_eq!(parse_res("   "), Ok(None));
}

#[test]
fn what_is_no_resolution_is_an_error() {
    for bad in ["1920", "x", "1920x", "x1080", "0x9", "16x0", "16 x9", "axb", "1x2x3", "-1x1",
        "4294967296x1"]
    {
        assert_eq!(parse_res(bad), Err(()));
    }
    assert_eq!(parse_res("4294967295x4294967295"), Ok(Some((1, 1))));
}

#[test]
fn install_takes_a_path_and_maybe_a_resolution() {
    assert_eq!(parse_install(""), Err(()));
    assert_eq!(parse_install("  "), Err(()));
    assert_eq!(parse_install("a/b.png"), Ok(("a/b.png".to_string(), None)));
    assert_eq!(parse_install(" a/b.png 1920x1080 "), Ok(("a/b.png".to_string(), Some((16, 9)))));
    assert_eq!(parse_install("my file.png"), Ok(("my file.png".to_string(), None)));
    assert_eq!(parse_install("dir/   "), Ok(("dir/".to_string(), None)));
}

#[test]
fn integers_are_read_with_their_sign() {
    assert_eq!(parse_i32("0"), Some(0));
    assert_eq!(parse_i32("-17"), Some(-17));
    assert_eq!(parse_i32("+17"), Some(17));
    assert_eq!(parse_i32("2147483647"), Some(i32::MAX));
    assert_eq!(parse_i32("-2147483648"), Some(i32::MIN));
    for bad in ["", "-", "+", "2147483648", "-2147483649", "1 ", "1.0", "--1", "-+1", "a"] {
        assert_eq!(parse_i32(bad), None);
    }
}

#[test]
fn lines_are_taken_apart() {
    assert_eq!(split_command("  Top   12 "), ("top".to_string(), "12".to_string()));
    assert_eq!(split_command("exit"), ("exit".to_string(), String::new()));
    assert_eq!(split_command("BG White"), ("bg".to_string(), "white".to_string()));
    assert_eq!(split_command(""), (String::new(), String::new()));
}

#[test]
fn commands_are_read() {
    assert!(matches!(Command::from("top 12", Percent::new("12")), Command::Top(12)));
    assert!(matches!(Command::from("t -3", Percent::new("-3")), Command::Top(-3)));
    assert!(matches!(Command::from("Bottom 1", None), Command::Bottom(1)));
    assert!(matches!(Command::from("l 2", None), Command::Left(2)));
    assert!(matches!(Command::from("right 0", None), Command::Right(0)));
    assert!(matches!(Command::from("d 2", None), Command::Denoise(2)));
    assert!(matches!(Command::from("top 1.5", Percent::new("1.5")), Command::Invalid));
    assert!(matches!(Command::from("top", None), Command::Invalid));
    match Command::from("v 1.5", Percent::new("1.5")) {
        Command::Vertical(p) => assert_eq!(p.as_str(), "1.5"),
        _ => panic!("not a vertical translation"),
    }
    match Command::from("horizontal -2", Percent::new("-2")) {
        Command::Horizontal(p) => assert_eq!(p.as_str(), "-2"),
        _ => panic!("not a horizontal translation"),
    }
    assert!(matches!(Command::from("v abc", None), Command::Invalid));
    assert!(matches!(
        Command::from("bg A1B2C3", None),
        Command::Background(Colour { r: 0xa1, g: 0xb2, b: 0xc3, a: 255 })
    ));
    assert!(matches!(Command::from("background red", None), Command::Invalid));
    match Command::from("install New/Pic.PNG 1920x1080", None) {
        Command::Install(path, res) => {
            assert_eq!(path, "new/pic.png");
            assert_eq!(res, Some((16, 9)));
        },
        _ => panic!("not an install"),
    }
    assert!(matches!(Command::from("install", None), Command::Invalid));
    assert!(matches!(Command::from("update", None), Command::Update(None)));
    assert!(matches!(Command::from("update 4x3", None), Command::Update(Some((4, 3)))));
    assert!(matches!(Command::from("update four", None), Command::Invalid));
    assert!(matches!(Command::from("reset", None), Command::Reset));
    assert!(matches!(Command::from(" CLEAR ", None), Command::Clear));
    assert!(matches!(Command::from("help me", None), Command::Help));
    assert!(matches!(Command::from("print", None), Command::Print));
    assert!(matches!(Command::from("exit", None), Command::Exit));
    assert!(matches!(Command::from("", None), Command::Invalid));
    assert!(matches!(Command::from("dance", None), Command::Invalid));
}

#[test]
fn only_settings_ask_for_a_new_build() {
    assert!(Command::Top(1).process());
    assert!(Command::Denoise(1).process());
    assert!(Command::Reset.process());
    assert!(Command::Clear.process());
    assert!(Command::Vertical(Percent::new("1").unwrap()).process());
    assert!(!Command::Install("a".to_string(), None).process());
    assert!(!Command::Update(None).process());
    assert!(!Command::Help.process());
    assert!(!Command::Print.process());
    assert!(!Command::Exit.process());
    assert!(!Command::Invalid.process());
}

#[test]
fn commands_change_the_settings() {
    let mut initial = ImageProperties::default();
    initial.left = Some(4);
    let mut p = ImageProperties::default();
    Command::Top(5).apply(&mut p, &initial);
    assert_eq!(p.top, Some(5));
    Command::Top(0).apply(&mut p, &initial);
    assert_eq!(p.top, None);
    Command::Denoise(3).apply(&mut p, &initial);
    assert_eq!(p.denoise, Some(3));
    Command::Denoise(1).apply(&mut p, &initial);
    assert_eq!(p.denoise, None);
    Command::Background(Colour { r: 1, g: 2, b: 3, a: 255 }).apply(&mut p, &initial);
    assert_eq!(p.background, Some(Colour { r: 1, g: 2, b: 3, a: 255 }));
    Command::Background(Colour { r: 0, g: 0, b: 0, a: 255 }).apply(&mut p, &initial);
    assert_eq!(p.background, None);
    Command::Vertical(Percent::new("2.5").unwrap()).apply(&mut p, &initial);
    assert_eq!(p.vertical.as_ref().map(|v| v.as_str()), Some("2.5"));
    Command::Vertical(Percent::new("0.0").unwrap()).apply(&mut p, &initial);
    assert!(p.vertical.is_none());
    Command::Right(7).apply(&mut p, &initial);
    Command::Print.apply(&mut p, &initial);
    assert_eq!(p.right, Some(7));
    Command::Reset.apply(&mut p, &initial);
    assert_eq!((p.left, p.right), (Some(4), None));
    Command::Clear.apply(&mut p, &initial);
    assert!(p.is_empty());
}

#[test]
fn an_image_is_installed_under_the_path_asked_for() {
    assert_eq!(install_destination("/o", "a/../b/./c.png"), "/o/b/c.png");
    match install_plan("/o", "new/pic.png", "/tmp/in.PNG", false) {
        InstallPlan::Exact(p) => assert_eq!(p, "/o/new/pic.png"),
        _ => panic!("not an exact path"),
    }
    match install_plan("/o", "new/pic.*", "/tmp/in.jpg", false) {
        InstallPlan::Exact(p) => assert_eq!(p, "/o/new/pic.jpg"),
        _ => panic!("not an exact path"),
    }
    match install_plan("/o", "new/pic.png", "/tmp/in", false) {
        InstallPlan::Exact(p) => assert_eq!(p, "/o/new/pic.png"),
        _ => panic!("not an exact path"),
    }
}

#[test]
fn an_image_without_a_name_gets_a_number() {
    match install_plan("/o", "dir/", "/tmp/in.png", false) {
        InstallPlan::Prefix { dir, prefix, extension } => {
            assert_eq!((dir.as_str(), prefix.as_str(), extension.as_str()), ("/o", "dir", "png"))
        },
        _ => panic!("not a prefix"),
    }
    match install_plan("/o", "dir", "/tmp/in.png", true) {
        InstallPlan::InDirectory { dir, extension } => {
            assert_eq!((dir.as_str(), extension.as_str()), ("/o/dir", "png"))
        },
        _ => panic!("not a directory"),
    }
    match install_plan("/o", "dir/*", "/tmp/in.JPG", false) {
        InstallPlan::InDirectory { dir, extension } => {
            assert_eq!((dir.as_str(), extension.as_str()), ("/o/dir", "jpg"))
        },
        _ => panic!("not a directory"),
    }
    match install_plan("/o", "dir/pre*", "/tmp/in.png", false) {
        InstallPlan::Wildcard { dir, prefix, extension } => assert_eq!(
            (dir.as_str(), prefix.as_str(), extension.as_str()),
            ("/o/dir", "pre", "png")
        ),
        _ => panic!("not a wildcard"),
    }
}

#[test]
fn installs_that_cannot_be_are_refused() {
    assert!(matches!(
        install_plan("/o", "a.png", "/o/b.png", false),
        InstallPlan::Refused(Refusal::AlreadyInstalled)
    ));
    assert!(matches!(
        install_plan("/o", "/abs/a.png", "/tmp/b.png", false),
        InstallPlan::Refused(Refusal::NotRelative)
    ));
    assert!(matches!(
        install_plan("/o", "../a.png", "/tmp/b.png", false),
        InstallPlan::Refused(Refusal::Outside)
    ));
    assert!(matches!(
        install_plan("/o", "a.png", "/tmp/b.txt", false),
        InstallPlan::Refused(Refusal::BadExtension(_))
    ));
    assert!(matches!(
        install_plan("/o", "a.txt", "/tmp/b", false),
        InstallPlan::Refused(Refusal::BadExtension(_))
    ));
    assert!(matches!(
        install_plan("/o", "a.jpg", "/tmp/b.png", false),
        InstallPlan::Refused(Refusal::ExtensionMismatch(_))
    ));
    assert!(matches!(
        install_plan("/o", "a", "/tmp/b", false),
        InstallPlan::Refused(Refusal::NoExtension)
    ));
    assert!(matches!(
        install_plan("/", "", "in.png", false),
        InstallPlan::Refused(Refusal::NoDirectory)
    ));
}

#[test]
fn the_history_keeps_the_newest_lines() {
    let mut h = ConsoleHistory::new();
    assert_eq!(h.read(0), None);
    h.write("first".to_string());
    h.write("second".to_string());
    assert_eq!(h.read(0), Some("second".to_string()));
    assert_eq!(h.read(1), Some("first".to_string()));
    assert_eq!(h.read(2), None);
    for i in 0..200 {
        h.write(format!("line {i}"));
    }
    assert_eq!(h.read(0), Some("line 199".to_string()));
    assert_eq!(h.read(127), Some("line 72".to_string()));
    assert_eq!(h.read(128), None);
}
