use shortcut_hops::input::{check_shortcuts, InputError};
use shortcut_hops::propagate::{propagate, solve, to_zero_based};

// 1 - 2 - 3 - 4 - 5
//
// No shortcuts at all, linear score.
#[test]
fn test_identity() {
    let res = solve(&vec![1, 2, 3, 4, 5]);
    assert_eq!(res, vec![0, 1, 2, 3, 4]);
}

// 1 - 2 - 3
// \___/
//
// Non useful shortcut, score would be the same without.
#[test]
fn test_non_useful_shortcuts() {
    let res = solve(&vec![2, 2, 3]);
    assert_eq!(res, vec![0, 1, 2]);
}

// 1 - 2 - 3
// \______/
//
// Simple shortcut.
#[test]
fn test_basic_example() {
    let res = solve(&vec![3, 2, 3]);
    assert_eq!(res, vec![0, 1, 1]);
}

// Every position shortcuts to position 4.
#[test]
fn test_one_shortcut_groups() {
    let res = solve(&vec![4, 4, 4, 4]);
    assert_eq!(res, vec![0, 1, 2, 1]);
}

// Two groups of positions, each shortcutting to the group's last position.
#[test]
fn test_two_shortcut_groups() {
    let res = solve(&vec![4, 4, 4, 4, 7, 7, 7]);
    assert_eq!(res, vec![0, 1, 2, 1, 2, 3, 3]);
}

// 1 - 2 - 3 - 4 - 5
// \______________/
//
// To reach 4: start at 1, shortcut to 5, then step back to 4.
#[test]
fn test_can_go_backward() {
    let res = solve(&vec![5, 2, 3, 4, 5]);
    assert_eq!(res, vec![0, 1, 2, 2, 1]);
}

// Shortcuts forward and one from the first position to the last.
#[test]
fn test_main_example() {
    let res = solve(&vec![7, 4, 4, 4, 5, 6, 7]);
    assert_eq!(res, vec![0, 1, 2, 2, 3, 2, 1]);
}

#[test]
fn single_position() {
    assert_eq!(solve(&vec![1]), vec![0]);
}

#[test]
fn shortcut_taken_against_its_direction() {
    // The last position shortcuts to the first: walking it backwards
    // reaches the last position in one hop.
    assert_eq!(solve(&vec![1, 2, 3, 4, 1]), vec![0, 1, 2, 2, 1]);
}

#[test]
fn shortcut_into_the_middle_from_both_ends() {
    // Position 7 shortcuts to position 1 and position 4 to position 7.
    assert_eq!(solve(&vec![1, 2, 3, 7, 5, 6, 1]), vec![0, 1, 2, 2, 3, 2, 1]);
}

#[test]
fn zero_based_input_to_propagate() {
    assert_eq!(propagate(&vec![2, 1, 2]), vec![0, 1, 1]);
    assert_eq!(propagate(&vec![0, 1, 2, 3, 4]), vec![0, 1, 2, 3, 4]);
}

#[test]
fn to_zero_based_subtracts_one() {
    assert_eq!(to_zero_based(&[3, 1, 2]), vec![2, 0, 1]);
    assert_eq!(to_zero_based(&[]), Vec::<usize>::new());
}

#[test]
fn start_position_is_at_distance_zero() {
    for input in [vec![1], vec![3, 3, 3], vec![2, 1, 4, 3], vec![5, 5, 5, 5, 1]] {
        assert_eq!(solve(&input)[0], 0);
    }
}

#[test]
fn neighbours_differ_by_at_most_one() {
    let input = vec![7, 4, 4, 4, 5, 6, 7];
    let d = solve(&input);
    for i in 1..d.len() {
        assert!(d[i] <= d[i - 1] + 1 && d[i - 1] <= d[i] + 1);
    }
    for i in 0..d.len() {
        let t = input[i] - 1;
        assert!(d[t] <= d[i] + 1 && d[i] <= d[t] + 1);
    }
}

#[test]
fn running_twice_gives_the_same_distances() {
    let input = vec![6, 1, 5, 2, 3, 4];
    assert_eq!(solve(&input), solve(&input));
}

#[test]
fn long_line_without_shortcuts() {
    let input: Vec<usize> = (1..=1000).collect();
    let expected: Vec<usize> = (0..1000).collect();
    assert_eq!(solve(&input), expected);
}

#[test]
fn check_accepts_valid_input() {
    assert_eq!(check_shortcuts(3, &[3, 2, 3]), Ok(()));
}

#[test]
fn check_rejects_length_mismatch() {
    assert_eq!(check_shortcuts(4, &[3, 2, 3]), Err(InputError::LengthMismatch));
}

#[test]
fn check_rejects_empty() {
    assert_eq!(check_shortcuts(0, &[]), Err(InputError::Empty));
}

#[test]
fn check_names_first_out_of_range_position() {
    assert_eq!(check_shortcuts(4, &[1, 0, 5, 2]), Err(InputError::OutOfRange(1)));
    assert_eq!(check_shortcuts(3, &[1, 2, 4]), Err(InputError::OutOfRange(2)));
}
