use std::path::PathBuf;

use kmoefix::{parse_command_line, Command, Config, FixOptions, RotateCover};

fn args(list: &[&str]) -> Vec<String> {
    list.iter().map(|s| s.to_string()).collect()
}

#[test]
fn no_args_opens_gui() {
    assert_eq!(parse_command_line(args(&[])), Ok(Command::Gui { preload: Vec::new() }));
}

#[test]
fn gui_flag_preloads_files_and_dirs() {
    assert_eq!(
        parse_command_line(args(&["--gui", "a.epub", "b.zip"])),
        Ok(Command::Gui { preload: vec![PathBuf::from("a.epub"), PathBuf::from("b.zip")] })
    );
    assert_eq!(parse_command_line(args(&["--gui"])), Ok(Command::Gui { preload: Vec::new() }));
}

#[test]
fn files_without_gui_stay_cli() {
    assert_eq!(
        parse_command_line(args(&["a.epub"])),
        Ok(Command::Cli { opts: FixOptions::default(), files: vec!["a.epub".to_string()] })
    );
}

#[test]
fn rotate_flags_map_to_options() {
    assert_eq!(
        parse_command_line(args(&["--no-rotate-cover", "a.epub"])),
        Ok(Command::Cli {
            opts: FixOptions { rotate_cover: RotateCover::Off },
            files: vec!["a.epub".to_string()],
        })
    );
    assert_eq!(
        parse_command_line(args(&["--rotate-cover=270", "a.epub"])),
        Ok(Command::Cli {
            opts: FixOptions { rotate_cover: RotateCover::Fixed(270) },
            files: vec!["a.epub".to_string()],
        })
    );
    assert_eq!(
        parse_command_line(args(&["--rotate-cover", "a.epub"])),
        Ok(Command::Cli {
            opts: FixOptions { rotate_cover: RotateCover::Auto },
            files: vec!["a.epub".to_string()],
        })
    );
    assert!(parse_command_line(args(&["--rotate-cover=45", "a.epub"])).is_err());
}

#[test]
fn help_and_version_win_over_files() {
    assert_eq!(parse_command_line(args(&["a.epub", "--help"])), Ok(Command::Usage));
    assert_eq!(parse_command_line(args(&["-h"])), Ok(Command::Usage));
    assert_eq!(parse_command_line(args(&["a.epub", "--version"])), Ok(Command::Version));
    assert_eq!(parse_command_line(args(&["-V"])), Ok(Command::Version));
}

#[test]
fn flags_without_files_print_usage() {
    assert_eq!(parse_command_line(args(&["--no-rotate-cover"])), Ok(Command::Usage));
}

#[test]
fn rotate_cover_config_maps_to_mode() {
    let cfg = Config::default();
    assert_eq!(cfg.rotate_cover_mode(), RotateCover::Auto, "缺省应自动回正");

    let cfg = Config { rotate_cover: "270".to_string(), ..Config::default() };
    assert_eq!(cfg.rotate_cover_mode(), RotateCover::Fixed(270));
    let cfg = Config { rotate_cover: " off ".to_string(), ..Config::default() };
    assert_eq!(cfg.rotate_cover_mode(), RotateCover::Off);

    let cfg = Config { rotate_cover: "xyz".to_string(), ..Config::default() };
    assert_eq!(cfg.rotate_cover_mode(), RotateCover::Auto);
}

#[test]
fn bad_rotate_value_is_reported_with_the_value() {
    assert_eq!(
        parse_command_line(args(&["--rotate-cover=45", "a.epub"])),
        Err("--rotate-cover 取值无效: 45".to_string())
    );
}

#[test]
fn rotate_value_forms() {
    assert_eq!(
        parse_command_line(args(&["--rotate-cover=off", "--gui", "x.epub"])),
        Ok(Command::Gui { preload: vec![PathBuf::from("x.epub")] })
    );
    assert_eq!(
        parse_command_line(args(&["--rotate-cover=180", "b.epub"])),
        Ok(Command::Cli {
            opts: FixOptions { rotate_cover: RotateCover::Fixed(180) },
            files: vec!["b.epub".to_string()],
        })
    );
    assert_eq!(
        parse_command_line(args(&["--rotate-cover=90", "--rotate-cover=auto", "c.epub"])),
        Ok(Command::Cli {
            opts: FixOptions { rotate_cover: RotateCover::Auto },
            files: vec!["c.epub".to_string()],
        })
    );
}

#[test]
fn config_mode_ignores_case_and_unicode_space() {
    let cfg = Config { rotate_cover: "\u{3000}OFF\t".to_string(), ..Config::default() };
    assert_eq!(cfg.rotate_cover_mode(), RotateCover::Off);
    let cfg = Config { rotate_cover: " 90\n".to_string(), ..Config::default() };
    assert_eq!(cfg.rotate_cover_mode(), RotateCover::Fixed(90));
    let cfg = Config { rotate_cover: "auto".to_string(), ..Config::default() };
    assert_eq!(cfg.rotate_cover_mode(), RotateCover::Auto);
}

#[test]
fn plain_files_keep_their_order() {
    assert_eq!(
        parse_command_line(args(&["b.epub", "a.epub", "c.zip"])),
        Ok(Command::Cli {
            opts: FixOptions::default(),
            files: vec!["b.epub".to_string(), "a.epub".to_string(), "c.zip".to_string()],
        })
    );
}
