use pint::navigation::{
    block_dp_corners, get_block, get_size, in_range, is_color, next_color, next_pos, remove_all,
};
use pint::types::{CodelChooser, Coordinates, Direction, RGB};

#[test]
fn remove_works() {
    let cord = Coordinates { x: 25, y: 50 };
    let mut cords = vec![
        Coordinates { x: 0, y: 0 },
        Coordinates { x: 25, y: 50 },
        Coordinates { x: 25, y: 60 },
        Coordinates { x: 25, y: 50 },
    ];
    let correct = vec![Coordinates { x: 0, y: 0 }, Coordinates { x: 25, y: 60 }];

    remove_all::<Coordinates>(&mut cords, &cord);
    assert_eq!(cords, correct);
}

#[test]
fn furthest_dp_direction_right() {
    let block = vec![
        Coordinates { x: 0, y: 0 },
        Coordinates { x: 25, y: 40 },
        Coordinates { x: 25, y: 60 },
        Coordinates { x: 25, y: 55 },
    ];
    let dp = Direction::RIGHT;

    let result = block_dp_corners(&dp, &block);
    let expected = (Coordinates { x: 25, y: 40 }, Coordinates { x: 25, y: 60 });
    assert_eq!(result, expected);
}

#[test]
fn furthest_dp_direction_up() {
    let block = vec![
        Coordinates { x: 0, y: 0 },
        Coordinates { x: 25, y: 0 },
        Coordinates { x: 40, y: 0 },
        Coordinates { x: 30, y: 0 },
        Coordinates { x: 25, y: 60 },
        Coordinates { x: 25, y: 50 },
    ];
    let dp = Direction::UP;

    let result = block_dp_corners(&dp, &block);
    let expected = (Coordinates { x: 0, y: 0 }, Coordinates { x: 40, y: 0 });
    assert_eq!(result, expected);
}

#[test]
fn furthest_dp_direction_left() {
    let block = vec![
        Coordinates { x: 30, y: 10 },
        Coordinates { x: 40, y: 0 },
        Coordinates { x: 100, y: 60 },
        Coordinates { x: 200, y: 50 },
    ];
    let dp = Direction::LEFT;

    let result = block_dp_corners(&dp, &block);
    let expected = (Coordinates { x: 30, y: 10 }, Coordinates { x: 30, y: 10 });
    assert_eq!(result, expected);
}

#[test]
fn furthest_dp_direction_down() {
    let block = vec![
        Coordinates { x: 3, y: 7 },
        Coordinates { x: 1, y: 7 },
        Coordinates { x: 5, y: 2 },
    ];
    let result = block_dp_corners(&Direction::DOWN, &block);
    assert_eq!(result, (Coordinates { x: 3, y: 7 }, Coordinates { x: 1, y: 7 }));
}

const R: RGB = RGB(255, 0, 0);
const G: RGB = RGB(0, 255, 0);
const B: RGB = RGB(0, 0, 255);
const W: RGB = RGB(255, 255, 255);
const K: RGB = RGB(0, 0, 0);

fn sorted(mut v: Vec<Coordinates>) -> Vec<(i32, i32)> {
    let mut r: Vec<(i32, i32)> = v.drain(..).map(|c| (c.y, c.x)).collect();
    r.sort();
    r
}

#[test]
fn single_codel_image_block() {
    let img = vec![vec![G]];
    let block = get_block(&img, Coordinates { x: 0, y: 0 }, 1, Direction::RIGHT);
    assert_eq!(block, vec![Coordinates { x: 0, y: 0 }]);
    assert_eq!(get_size(&block), 1);
}

#[test]
fn flood_fill_hollow_square() {
    // a ring of blue on the border of a 10x10 grid around a red interior
    let mut img = vec![vec![R; 10]; 10];
    for i in 0..10 {
        img[0][i] = B;
        img[9][i] = B;
        img[i][0] = B;
        img[i][9] = B;
    }
    let inner = get_block(&img, Coordinates { x: 4, y: 5 }, 1, Direction::RIGHT);
    let mut expected_inner = Vec::new();
    for y in 1..9 {
        for x in 1..9 {
            expected_inner.push((y, x));
        }
    }
    assert_eq!(sorted(inner), expected_inner);

    let border = get_block(&img, Coordinates { x: 0, y: 3 }, 1, Direction::RIGHT);
    assert_eq!(border.len(), 36);
    for c in &border {
        assert!(c.x == 0 || c.x == 9 || c.y == 0 || c.y == 9);
    }
}

#[test]
fn flood_fill_is_four_connected() {
    // diagonal neighbours do not join
    let img = vec![vec![G, K], vec![K, G]];
    let block = get_block(&img, Coordinates { x: 0, y: 0 }, 1, Direction::RIGHT);
    assert_eq!(block, vec![Coordinates { x: 0, y: 0 }]);
}

#[test]
fn flood_fill_steps_by_codel_size() {
    let img = vec![vec![R, R, R, R], vec![R, R, R, R], vec![G, G, R, R], vec![G, G, R, R]];
    let block = get_block(&img, Coordinates { x: 0, y: 0 }, 2, Direction::RIGHT);
    assert_eq!(
        sorted(block),
        vec![(0, 0), (0, 2), (2, 2)]
    );
}

#[test]
fn white_block_is_end_of_slide() {
    let img = vec![vec![R, W, W, W, G]];
    let block = get_block(&img, Coordinates { x: 1, y: 0 }, 1, Direction::RIGHT);
    assert_eq!(block, vec![Coordinates { x: 3, y: 0 }]);
    let block = get_block(&img, Coordinates { x: 2, y: 0 }, 1, Direction::LEFT);
    assert_eq!(block, vec![Coordinates { x: 1, y: 0 }]);
}

#[test]
fn range_and_color_checks() {
    let img = vec![vec![R, G], vec![B, K]];
    assert!(in_range(&Coordinates { x: 1, y: 1 }, &img));
    assert!(!in_range(&Coordinates { x: 2, y: 0 }, &img));
    assert!(!in_range(&Coordinates { x: 0, y: -1 }, &img));
    assert!(is_color(&Coordinates { x: 0, y: 1 }, &img, B));
    assert!(!is_color(&Coordinates { x: 0, y: 1 }, &img, R));
}

#[test]
fn next_pos_skips_black_and_edges() {
    let img = vec![vec![R, R, K], vec![R, R, G]];
    let block = get_block(&img, Coordinates { x: 0, y: 0 }, 1, Direction::RIGHT);
    // right, chooser left: exit at (1, 0), into black
    assert_eq!(next_pos(&Direction::RIGHT, &CodelChooser::LEFT, &block, 1, &img), None);
    // right, chooser right: exit at (1, 1), into green
    assert_eq!(
        next_pos(&Direction::RIGHT, &CodelChooser::RIGHT, &block, 1, &img),
        Some(Coordinates { x: 2, y: 1 })
    );
    // up: off the image
    assert_eq!(next_pos(&Direction::UP, &CodelChooser::LEFT, &block, 1, &img), None);
}

#[test]
fn white_slide_reaches_next_color() {
    let img = vec![vec![R, W, W, G]];
    let mut pos = Coordinates { x: 0, y: 0 };
    let mut dp = Direction::RIGHT;
    let mut cc = CodelChooser::LEFT;
    let (info, slid) = next_color(&img, &mut pos, 1, &mut dp, &mut cc).unwrap();
    assert_eq!(pos, Coordinates { x: 3, y: 0 });
    assert_eq!(info.color, G);
    assert_eq!(info.size, 1);
    assert!(slid);
    assert_eq!(dp, Direction::RIGHT);
    assert_eq!(cc, CodelChooser::LEFT);
}

#[test]
fn white_slide_turns_at_black() {
    // from red rightward into white, black ahead: turn down, green below
    let img = vec![vec![R, W, K], vec![K, G, K]];
    let mut pos = Coordinates { x: 0, y: 0 };
    let mut dp = Direction::RIGHT;
    let mut cc = CodelChooser::LEFT;
    let (info, slid) = next_color(&img, &mut pos, 1, &mut dp, &mut cc).unwrap();
    assert!(slid);
    assert_eq!(pos, Coordinates { x: 1, y: 1 });
    assert_eq!(info.color, G);
    assert_eq!(dp, Direction::DOWN);
    assert_eq!(cc, CodelChooser::RIGHT);
}

#[test]
fn white_slide_returns_to_start() {
    // the white pocket has no other way out than back to red
    let img = vec![vec![R, W, K], vec![K, K, K]];
    let mut pos = Coordinates { x: 0, y: 0 };
    let mut dp = Direction::RIGHT;
    let mut cc = CodelChooser::LEFT;
    let (info, slid) = next_color(&img, &mut pos, 1, &mut dp, &mut cc).unwrap();
    assert!(slid);
    assert_eq!(info.color, R);
    assert_eq!(pos, Coordinates { x: 0, y: 0 });
    assert_eq!(dp, Direction::LEFT);
    assert_eq!(cc, CodelChooser::LEFT);
}

#[test]
fn enclosed_codel_terminates() {
    let img = vec![vec![K, K, K], vec![K, R, K], vec![K, K, K]];
    let mut pos = Coordinates { x: 1, y: 1 };
    let mut dp = Direction::RIGHT;
    let mut cc = CodelChooser::LEFT;
    assert!(next_color(&img, &mut pos, 1, &mut dp, &mut cc).is_none());
    assert_eq!(pos, Coordinates { x: 1, y: 1 });
    assert_eq!(dp, Direction::RIGHT);
    assert_eq!(cc, CodelChooser::LEFT);
}

#[test]
fn probes_rotate_through_all_configurations() {
    // the only exit is to the left of a 2x1 red block, reached on the
    // fifth probe (direction left, chooser left)
    let img = vec![vec![G, R, R]];
    let mut pos = Coordinates { x: 1, y: 0 };
    let mut dp = Direction::RIGHT;
    let mut cc = CodelChooser::LEFT;
    let (info, slid) = next_color(&img, &mut pos, 1, &mut dp, &mut cc).unwrap();
    assert!(!slid);
    assert_eq!(info.color, G);
    assert_eq!(pos, Coordinates { x: 0, y: 0 });
    assert_eq!(dp, Direction::LEFT);
    assert_eq!(cc, CodelChooser::LEFT);
}
