use pint::interpreter::{
    add, calculate_color_diff, div, dup, execute, get_color_index, greater, in_char, in_num,
    modulo, mult, not, out_char, out_num, pointer, pop, push, roll, sub, switch, IoRequest,
};
use pint::types::{CodelChooser, ColorInfo, Coordinates, Direction, RGB};

fn run_op(
    op: fn(i32, &mut Vec<i32>, &mut CodelChooser, &mut Direction),
    stack: Vec<i32>,
) -> (Vec<i32>, CodelChooser, Direction) {
    let mut stack = stack;
    let mut cc = CodelChooser::LEFT;
    let mut dp = Direction::RIGHT;
    op(7, &mut stack, &mut cc, &mut dp);
    (stack, cc, dp)
}

#[test]
fn gets_correct_color_index() {
    let color = RGB(0, 255, 0);
    let result = get_color_index(color).unwrap();
    let expected = Coordinates { x: 2, y: 1 };

    assert_eq!(result, expected);
}

#[test]
fn gets_correct_color_diff_1() {
    let prev = RGB(0, 255, 0);
    let current = RGB(255, 192, 192);
    let result = calculate_color_diff(prev, current);
    let expected = Coordinates { x: 4, y: 2 };

    assert_eq!(result, expected);
}

#[test]
fn gets_correct_color_diff_2() {
    let prev = RGB(192, 255, 192);
    let current = RGB(192, 255, 255);
    let result = calculate_color_diff(prev, current);
    let expected = Coordinates { x: 1, y: 0 };

    assert_eq!(result, expected);
}

#[test]
fn gets_correct_color_diff_3() {
    let prev = RGB(192, 0, 192);
    let current = RGB(255, 0, 255);
    let result = calculate_color_diff(prev, current);
    let expected = Coordinates { x: 0, y: 2 };

    assert_eq!(result, expected);
}

#[test]
fn roll_test1() {
    let mut stack = vec![12, 3, 102, 33, 7, 4, 2];
    let mut dp = Direction::UP;
    let mut cc = CodelChooser::LEFT;

    roll(3, &mut stack, &mut cc, &mut dp);
    assert_eq!(stack, [12, 33, 7, 3, 102]);
}

#[test]
fn roll_test2() {
    let mut stack = vec![1, 2, 3, 3, 1];
    let mut dp = Direction::UP;
    let mut cc = CodelChooser::LEFT;

    roll(3, &mut stack, &mut cc, &mut dp);
    assert_eq!(stack, [3, 1, 2]);
}

#[test]
fn switch_test() {
    let mut stack = vec![1, 2, 3, 3, 1];
    let mut dp = Direction::UP;
    let mut cc = CodelChooser::LEFT;

    switch(3, &mut stack, &mut cc, &mut dp);
    assert_eq!(stack, [1, 2, 3, 3]);
    assert_eq!(cc, CodelChooser::RIGHT);
}

#[test]
fn unknown_and_neutral_colors_have_no_index() {
    assert_eq!(get_color_index(RGB(255, 255, 255)), None);
    assert_eq!(get_color_index(RGB(0, 0, 0)), None);
    assert_eq!(get_color_index(RGB(10, 20, 30)), None);
    assert_eq!(get_color_index(RGB(192, 0, 192)), Some(Coordinates { x: 5, y: 2 }));
    assert_eq!(get_color_index(RGB(255, 192, 192)), Some(Coordinates { x: 0, y: 0 }));
}

#[test]
fn color_diff_with_white_is_zero() {
    let r = calculate_color_diff(RGB(255, 255, 255), RGB(255, 0, 0));
    assert_eq!(r, Coordinates { x: 0, y: 0 });
    let r = calculate_color_diff(RGB(255, 0, 0), RGB(0, 0, 0));
    assert_eq!(r, Coordinates { x: 0, y: 0 });
}

#[test]
fn color_diff_wraps_around() {
    // blue (hue 4, dark) to red (hue 0, light): (0 - 4) mod 6, (0 - 2) mod 3
    let r = calculate_color_diff(RGB(0, 0, 192), RGB(255, 192, 192));
    assert_eq!(r, Coordinates { x: 2, y: 1 });
}

#[test]
fn push_and_pop() {
    assert_eq!(run_op(push, vec![1]).0, vec![1, 7]);
    assert_eq!(run_op(pop, vec![1, 2]).0, vec![1]);
    assert_eq!(run_op(pop, vec![]).0, Vec::<i32>::new());
}

#[test]
fn arithmetic_on_second_and_top() {
    assert_eq!(run_op(add, vec![9, 5, 3]).0, vec![9, 8]);
    assert_eq!(run_op(sub, vec![5, 3]).0, vec![2]);
    assert_eq!(run_op(mult, vec![5, -3]).0, vec![-15]);
    assert_eq!(run_op(div, vec![-7, 2]).0, vec![-3]);
    assert_eq!(run_op(modulo, vec![-7, 3]).0, vec![2]);
    assert_eq!(run_op(modulo, vec![7, -3]).0, vec![1]);
    assert_eq!(run_op(greater, vec![5, 3]).0, vec![1]);
    assert_eq!(run_op(greater, vec![3, 3]).0, vec![0]);
    assert_eq!(run_op(not, vec![0]).0, vec![1]);
    assert_eq!(run_op(not, vec![4]).0, vec![0]);
    assert_eq!(run_op(dup, vec![4]).0, vec![4, 4]);
}

#[test]
fn arithmetic_wraps() {
    assert_eq!(run_op(add, vec![i32::MAX, 1]).0, vec![i32::MIN]);
    assert_eq!(run_op(sub, vec![i32::MIN, 1]).0, vec![i32::MAX]);
    assert_eq!(run_op(mult, vec![i32::MAX, 2]).0, vec![-2]);
    assert_eq!(run_op(div, vec![i32::MIN, -1]).0, vec![i32::MIN]);
    assert_eq!(run_op(modulo, vec![i32::MIN, -1]).0, vec![0]);
}

#[test]
fn underflow_is_ignored() {
    assert_eq!(run_op(add, vec![4]).0, vec![4]);
    assert_eq!(run_op(greater, vec![4]).0, vec![4]);
    assert_eq!(run_op(roll, vec![4]).0, vec![4]);
    assert_eq!(run_op(not, vec![]).0, Vec::<i32>::new());
}

#[test]
fn division_by_zero_leaves_stack() {
    assert_eq!(run_op(div, vec![1, 5, 0]).0, vec![1, 5, 0]);
    assert_eq!(run_op(modulo, vec![1, 5, 0]).0, vec![1, 5, 0]);
}

#[test]
fn roll_zero_depth_leaves_stack() {
    assert_eq!(run_op(roll, vec![1, 2, 3, 0, 5]).0, vec![1, 2, 3, 0, 5]);
}

#[test]
fn roll_too_deep_leaves_stack() {
    assert_eq!(run_op(roll, vec![1, 2, 3, 4, 1]).0, vec![1, 2, 3, 4, 1]);
    assert_eq!(run_op(roll, vec![1, 2, -1, 1]).0, vec![1, 2, -1, 1]);
}

#[test]
fn roll_negative_moves_up() {
    assert_eq!(run_op(roll, vec![1, 2, 3, 3, -1]).0, vec![2, 3, 1]);
}

#[test]
fn roll_repeated_depth_times_restores() {
    let mut stack = vec![9, 1, 2, 3];
    for _ in 0..3 {
        stack.push(3);
        stack.push(2);
        stack = run_op(roll, stack).0;
    }
    assert_eq!(stack, vec![9, 1, 2, 3]);
}

#[test]
fn pointer_turns_direction() {
    let (stack, _, dp) = run_op(pointer, vec![3]);
    assert!(stack.is_empty());
    assert_eq!(dp, Direction::UP);
    let (_, _, dp) = run_op(pointer, vec![-1]);
    assert_eq!(dp, Direction::UP);
    let (_, _, dp) = run_op(pointer, vec![5]);
    assert_eq!(dp, Direction::DOWN);
}

#[test]
fn switch_by_parity() {
    assert_eq!(run_op(switch, vec![2]).1, CodelChooser::LEFT);
    assert_eq!(run_op(switch, vec![-3]).1, CodelChooser::RIGHT);
    assert_eq!(run_op(switch, vec![i32::MIN]).1, CodelChooser::LEFT);
}

#[test]
fn input_and_output() {
    let mut stack = vec![1];
    in_num(&mut stack, Some(-12));
    in_num(&mut stack, None);
    in_char(&mut stack, Some(b'A'));
    assert_eq!(stack, vec![1, -12, 65]);
    assert_eq!(out_char(&mut stack), Some(65));
    assert_eq!(out_num(&mut stack), Some(-12));
    assert_eq!(stack, vec![1]);
    let mut empty: Vec<i32> = Vec::new();
    assert_eq!(out_num(&mut empty), None);
}

#[test]
fn execute_dispatches_by_color_change() {
    let mut stack = vec![6, 2];
    let mut dp = Direction::RIGHT;
    let mut cc = CodelChooser::LEFT;
    let red = ColorInfo { color: RGB(255, 0, 0), size: 4 };
    let dark_red = ColorInfo { color: RGB(192, 0, 0), size: 1 };
    let yellow = ColorInfo { color: RGB(255, 255, 0), size: 1 };
    let light_magenta = ColorInfo { color: RGB(255, 192, 255), size: 1 };
    // no change of hue, one darker: push the size of the block left
    let r = execute(&mut stack, &mut dp, &mut cc, red, &dark_red);
    assert_eq!(r, IoRequest::Nothing);
    assert_eq!(stack, vec![6, 2, 4]);
    // one hue step: add
    let r = execute(&mut stack, &mut dp, &mut cc, red, &yellow);
    assert_eq!(r, IoRequest::Nothing);
    assert_eq!(stack, vec![6, 6]);
    // five hue steps, one darker: out-number
    let r = execute(&mut stack, &mut dp, &mut cc, dark_red, &light_magenta);
    assert_eq!(r, IoRequest::WriteNumber(6));
    assert_eq!(stack, vec![6]);
    // four hue steps, two lightness steps: in-number
    let r = execute(&mut stack, &mut dp, &mut cc, red, &ColorInfo { color: RGB(192, 192, 255), size: 1 });
    assert_eq!(r, IoRequest::ReadNumber);
    assert_eq!(stack, vec![6]);
}
