use pint::interpreter::IoRequest;
use pint::machine::Machine;
use pint::types::{Coordinates, RGB};

const RED: RGB = RGB(255, 0, 0);
const DARK_RED: RGB = RGB(192, 0, 0);
const YELLOW: RGB = RGB(255, 255, 0);
const GREEN: RGB = RGB(0, 255, 0);
const LIGHT_MAGENTA: RGB = RGB(255, 192, 255);
const WHITE: RGB = RGB(255, 255, 255);
const BLACK: RGB = RGB(0, 0, 0);

#[test]
fn hue_change_adds_on_empty_stack() {
    let img = vec![vec![RED, YELLOW]];
    let mut m = Machine::new(&img, 1);
    assert_eq!(m.current.size, 1);
    let r = m.step(&img, 1);
    assert_eq!(r, Some(IoRequest::Nothing));
    assert!(m.stack.is_empty());
    assert_eq!(m.pos, Coordinates { x: 1, y: 0 });
    assert_eq!(m.current.color, YELLOW);
}

#[test]
fn push_then_out_number() {
    let img = vec![vec![RED, RED, RED, DARK_RED, LIGHT_MAGENTA]];
    let mut m = Machine::new(&img, 1);
    assert_eq!(m.current.size, 3);
    assert_eq!(m.step(&img, 1), Some(IoRequest::Nothing));
    assert_eq!(m.stack, vec![3]);
    assert_eq!(m.step(&img, 1), Some(IoRequest::WriteNumber(3)));
    assert!(m.stack.is_empty());
}

#[test]
fn white_slide_emits_nothing() {
    let img = vec![vec![RED, WHITE, WHITE, GREEN]];
    let mut m = Machine::new(&img, 1);
    m.stack = vec![6, 3];
    assert_eq!(m.step(&img, 1), Some(IoRequest::Nothing));
    assert_eq!(m.pos, Coordinates { x: 3, y: 0 });
    assert_eq!(m.current.color, GREEN);
    // red to green would divide; through white nothing is executed
    assert_eq!(m.stack, vec![6, 3]);
}

#[test]
fn enclosed_codel_halts() {
    let img = vec![
        vec![BLACK, BLACK, BLACK],
        vec![BLACK, RED, BLACK],
        vec![BLACK, BLACK, BLACK],
    ];
    let mut m = Machine::new(&img, 1);
    m.pos = Coordinates { x: 1, y: 1 };
    m.current.color = RED;
    assert_eq!(m.step(&img, 1), None);
    assert_eq!(m.pos, Coordinates { x: 1, y: 1 });
    assert!(m.stack.is_empty());
}

#[test]
fn codel_size_scales_steps() {
    // each codel is 2x2 pixels: red block of two codels, then dark red
    let row = vec![RED, RED, RED, RED, DARK_RED, DARK_RED];
    let img = vec![row.clone(), row];
    let mut m = Machine::new(&img, 2);
    assert_eq!(m.current.size, 2);
    assert_eq!(m.step(&img, 2), Some(IoRequest::Nothing));
    assert_eq!(m.pos, Coordinates { x: 4, y: 0 });
    assert_eq!(m.stack, vec![2]);
}
