use trajectory::command::{Command, CommandError, Direction};
use trajectory::eval::{calc_pos, calc_pos2, calc_pos_combined};
use trajectory::text::parse_commands;

#[test]
fn test_calc_pos_example() {
    assert_eq!(
        calc_pos("forward 5\ndown 5\nforward 8\nup 3\ndown 8\nforward 2").unwrap(),
        (15, 10)
    );
}

#[test]
fn test_calc_pos2_example() {
    assert_eq!(
        calc_pos2("forward 5\ndown 5\nforward 8\nup 3\ndown 8\nforward 2").unwrap(),
        (15, 60)
    );
}

#[test]
fn test_calc_pos_combined_example() {
    assert_eq!(
        calc_pos_combined("forward 5\ndown 5\nforward 8\nup 3\ndown 8\nforward 2").unwrap(),
        (150, 900)
    );
}

#[test]
fn empty_input_yields_zero() {
    assert_eq!(calc_pos("").unwrap(), (0, 0));
    assert_eq!(calc_pos2("").unwrap(), (0, 0));
    assert_eq!(calc_pos_combined("").unwrap(), (0, 0));
}

#[test]
fn rerun_yields_same_result() {
    let text = "forward 5\ndown 5\nforward 8\nup 3\ndown 8\nforward 2";
    assert_eq!(calc_pos(text), calc_pos(text));
    assert_eq!(calc_pos2(text), calc_pos2(text));
    assert_eq!(calc_pos_combined(text), calc_pos_combined(text));
}

#[test]
fn combined_equals_pairwise_products() {
    let text = "forward 5\ndown 5\nforward 8\nup 3\ndown 8\nforward 2";
    let simple = calc_pos(text).unwrap();
    let aimed = calc_pos2(text).unwrap();
    assert_eq!(
        calc_pos_combined(text).unwrap(),
        (simple.0 * simple.1, aimed.0 * aimed.1)
    );
}

#[test]
fn reordering_changes_aimed_depth() {
    let down_first = calc_pos2("down 5\nforward 8").unwrap();
    let forward_first = calc_pos2("forward 8\ndown 5").unwrap();
    assert_eq!(down_first, (8, 40));
    assert_eq!(forward_first, (8, 0));
    assert_ne!(down_first, forward_first);
    // The simple rule does not care about this reordering.
    assert_eq!(
        calc_pos("down 5\nforward 8").unwrap(),
        calc_pos("forward 8\ndown 5").unwrap()
    );
}

#[test]
fn parses_commands_in_order() {
    let cmds = parse_commands("forward 5\nup 3").unwrap();
    assert_eq!(
        cmds,
        vec![
            Command { dir: Direction::Forward, val: 5 },
            Command { dir: Direction::Up, val: 3 },
        ]
    );
}

#[test]
fn missing_separator_is_reported() {
    assert_eq!(calc_pos("forward"), Err(CommandError::MissingSeparator));
    assert_eq!(calc_pos2(""), Ok((0, 0)));
    assert_eq!(calc_pos2("\n"), Err(CommandError::MissingSeparator));
}

#[test]
fn invalid_magnitude_is_reported() {
    assert_eq!(calc_pos("up x"), Err(CommandError::InvalidMagnitude));
    assert_eq!(calc_pos("up "), Err(CommandError::InvalidMagnitude));
    assert_eq!(calc_pos("up +"), Err(CommandError::InvalidMagnitude));
    assert_eq!(calc_pos("up 3 4"), Err(CommandError::InvalidMagnitude));
    assert_eq!(
        calc_pos("forward 99999999999"),
        Err(CommandError::InvalidMagnitude)
    );
    assert_eq!(
        calc_pos("forward 2147483648"),
        Err(CommandError::InvalidMagnitude)
    );
    assert_eq!(
        calc_pos("forward -2147483649"),
        Err(CommandError::InvalidMagnitude)
    );
    // A bad magnitude is reported even when the direction is bad too.
    assert_eq!(calc_pos("left x"), Err(CommandError::InvalidMagnitude));
}

#[test]
fn unknown_direction_is_reported() {
    assert_eq!(calc_pos("left 5"), Err(CommandError::UnknownDirection));
    assert_eq!(calc_pos("Forward 5"), Err(CommandError::UnknownDirection));
}

#[test]
fn first_bad_line_wins() {
    assert_eq!(
        calc_pos("forward 1\nbad\nleft 5"),
        Err(CommandError::MissingSeparator)
    );
}

#[test]
fn signed_magnitudes_are_accepted() {
    assert_eq!(calc_pos("forward +5\nup -3").unwrap(), (5, 3));
    assert_eq!(calc_pos2("down -2\nforward 3").unwrap(), (3, -6));
    assert_eq!(calc_pos("forward -2147483648").unwrap(), (-2147483648, 0));
}

#[test]
fn trailing_newline_ends_the_last_line() {
    assert_eq!(calc_pos("forward 5\n").unwrap(), (5, 0));
    assert_eq!(calc_pos("forward 5\n\n"), Err(CommandError::MissingSeparator));
}

#[test]
fn overflow_is_reported() {
    assert_eq!(
        calc_pos("forward 2147483647\nforward 1"),
        Err(CommandError::Overflow)
    );
    assert_eq!(
        calc_pos2("down 2147483647\ndown 1"),
        Err(CommandError::Overflow)
    );
    // Both accumulators stay in range, but one product does not.
    assert_eq!(calc_pos("forward 2147483647\ndown 2").unwrap(), (2147483647, 2));
    assert_eq!(
        calc_pos_combined("forward 2147483647\ndown 2"),
        Err(CommandError::Overflow)
    );
}
