use lib::cli::{parse_args, parse_frame_count, CliOption};
use lib::geometry::Rect;

fn args(words: &[&str]) -> Vec<String> {
    words.iter().map(|w| w.to_string()).collect()
}

#[test]
fn readme_dry_run_command() {
    let a = args(&[
        "--fps", "60", "--window-title", "Dota 2", "--no-control", "--no-startup", "--no-click-focus",
        "--dry-run-frames", "180", "--debug",
    ]);
    assert_eq!(
        parse_args(&a),
        vec![
            CliOption::Fps(Some(1)),
            CliOption::WindowTitle(Some(3)),
            CliOption::NoControl,
            CliOption::NoStartup,
            CliOption::NoClickFocus,
            CliOption::DryRunFrames(Some(180)),
            CliOption::Debug,
        ]
    );
}

#[test]
fn game_rect_option() {
    let a = args(&["--game-rect", "682,165,688,916", "--full-window"]);
    assert_eq!(
        parse_args(&a),
        vec![
            CliOption::GameRect(Some(Rect { left: 682, top: 165, width: 688, height: 916 })),
            CliOption::FullWindow,
        ]
    );
    assert_eq!(parse_args(&args(&["--game-rect", "1,2,3"])), vec![CliOption::GameRect(None)]);
}

#[test]
fn value_is_taken_whatever_it_is() {
    assert_eq!(parse_args(&args(&["--log-file", "--debug"])), vec![CliOption::LogFile(Some(1))]);
    assert_eq!(parse_args(&args(&["--template"])), vec![CliOption::Template(None)]);
    assert_eq!(parse_args(&args(&["--title", "x", "--use-shm"])), vec![CliOption::WindowTitle(Some(1)), CliOption::UseShm]);
}

#[test]
fn unknown_words_skipped_and_help_stops() {
    assert_eq!(
        parse_args(&args(&["stray", "--list-windows", "-h", "--debug"])),
        vec![CliOption::ListWindows, CliOption::Help]
    );
    assert_eq!(parse_args(&args(&["--help"])), vec![CliOption::Help]);
    assert_eq!(parse_args(&args(&[])), vec![]);
    assert_eq!(
        parse_args(&args(&["--deadzone", "12", "--cart-speed", "400", "--min-boot-speed", "100"])),
        vec![CliOption::Deadzone(Some(1)), CliOption::CartSpeed(Some(3)), CliOption::MinBootSpeed(Some(5))]
    );
}

#[test]
fn frame_counts() {
    assert_eq!(parse_frame_count("180"), Some(180));
    assert_eq!(parse_frame_count("+7"), Some(7));
    assert_eq!(parse_frame_count("18446744073709551615"), Some(u64::MAX));
    assert_eq!(parse_frame_count("18446744073709551616"), None);
    assert_eq!(parse_frame_count("-1"), None);
    assert_eq!(parse_frame_count("+"), None);
    assert_eq!(parse_frame_count(""), None);
    assert_eq!(parse_frame_count(" 1"), None);
    assert_eq!(parse_dry("abc"), vec![CliOption::DryRunFrames(None)]);
}

fn parse_dry(v: &str) -> Vec<CliOption> {
    parse_args(&args(&["--dry-run-frames", v]))
}
