use hlsearch::{append_decimal, timestamped_name, with_timestamp, Cli, SearchMode};
use std::path::PathBuf;

fn test_cli() -> Cli {
    Cli {
        depth: 1,
        mode: SearchMode::Sequential,
        cols: 4,
        output: PathBuf::from("shift_path.txt"),
        checkpoint_interval: 100_000,
        parallel_tasks_per_thread: 4,
        max_depth: 249,
        target: None,
    }
}

#[test]
fn cli_validation_accepts_valid_configuration() {
    assert!(test_cli().validate(3).is_ok());
}

#[test]
fn cli_validation_rejects_invalid_configuration() {
    let mut cli = test_cli();
    cli.depth = 0;
    assert!(cli.validate(3).is_err());
    cli = test_cli();
    cli.cols = 0;
    assert!(cli.validate(3).is_err());
    cli = test_cli();
    cli.checkpoint_interval = 0;
    assert!(cli.validate(3).is_err());
}

#[test]
fn cli_validation_accepts_depth_equal_to_available_primes() {
    let mut cli = test_cli();
    cli.depth = 3;
    assert!(cli.validate(3).is_ok());
}

#[test]
fn cli_validation_rejects_depth_above_available_primes() {
    let mut cli = test_cli();
    cli.depth = 4;
    assert_eq!(
        cli.validate(3).unwrap_err(),
        "depth (4) cannot exceed available primes (3)"
    );
}

#[test]
fn cli_validation_names_the_first_fault() {
    let mut cli = test_cli();
    cli.target = Some(5);
    cli.depth = 4;
    assert_eq!(
        cli.validate(3).unwrap_err(),
        "target (5) cannot exceed cols (4)"
    );
    cli.checkpoint_interval = 0;
    assert_eq!(
        cli.validate(3).unwrap_err(),
        "checkpoint-interval must be at least 1"
    );
    cli.cols = 0;
    assert_eq!(cli.validate(3).unwrap_err(), "cols must be at least 1");
    cli.depth = 0;
    assert_eq!(cli.validate(3).unwrap_err(), "depth must be at least 1");
}

#[test]
fn cli_validation_accepts_target_equal_to_cols() {
    let mut cli = test_cli();
    cli.target = Some(4);
    assert!(cli.validate(3).is_ok());
}

#[test]
fn target_counts_only_at_its_depth() {
    let mut cli = test_cli();
    cli.target = Some(4);
    assert_eq!(cli.recorded_target(), None);
    cli.max_depth = 1;
    assert_eq!(cli.recorded_target(), Some(4));
}

#[test]
fn timestamps_stand_behind_the_stem() {
    let now = "20240102_030405";
    assert_eq!(
        timestamped_name(Some("shift_path"), Some("json"), now),
        "shift_path_20240102_030405.json"
    );
    assert_eq!(
        timestamped_name(Some("result"), None, now),
        "result_20240102_030405"
    );
    assert_eq!(
        timestamped_name(None, Some("txt"), now),
        "output_20240102_030405.txt"
    );
}

#[test]
fn current_time_is_fifteen_characters_long() {
    let name = with_timestamp(Some("searched"), Some("json"));
    let stamp = name
        .strip_prefix("searched_")
        .and_then(|rest| rest.strip_suffix(".json"))
        .unwrap();
    assert_eq!(stamp.len(), 15);
    for (i, c) in stamp.chars().enumerate() {
        if i == 8 {
            assert_eq!(c, '_');
        } else {
            assert!(c.is_ascii_digit());
        }
    }
}

#[test]
fn numbers_are_written_in_decimal() {
    let mut text = String::from("n=");
    append_decimal(&mut text, 0);
    append_decimal(&mut text, 1_234_567_890);
    assert_eq!(text, "n=01234567890");
}
