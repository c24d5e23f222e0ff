use crate::interpreter::{chromatic, get_color_index};
use crate::types::{
    clockwise, counterclockwise, step_x, step_y, toggled, CodelChooser, ColorInfo, Coordinates,
    Direction, RGB,
};
use vstd::prelude::*;
use vstd::std_specs::cmp::PartialEqSpec;

verus! {

/// An image is a non-empty rectangle of rows whose sides fit in `i32`.
pub open spec fn well_formed(img: Seq<Vec<RGB>>) -> bool {
    &&& img.len() > 0
    &&& img[0]@.len() > 0
    &&& img.len() <= i32::MAX
    &&& img[0]@.len() <= i32::MAX
    &&& forall|y: int| 0 <= y < img.len() ==> (#[trigger] img[y])@.len() == img[0]@.len()
}

pub open spec fn width(img: Seq<Vec<RGB>>) -> int {
    img[0]@.len() as int
}

pub open spec fn height(img: Seq<Vec<RGB>>) -> int {
    img.len() as int
}

/// `(x, y)` lies on the image.
pub open spec fn inside(img: Seq<Vec<RGB>>, x: int, y: int) -> bool {
    0 <= x < width(img) && 0 <= y < height(img)
}

pub open spec fn in_image(img: Seq<Vec<RGB>>, c: Coordinates) -> bool {
    inside(img, c.x as int, c.y as int)
}

/// The colour at `c`.
pub open spec fn pixel(img: Seq<Vec<RGB>>, c: Coordinates) -> RGB {
    img[c.y as int]@[c.x as int]
}

pub open spec fn black() -> RGB {
    RGB(0, 0, 0)
}

/// The coordinates `cs` units from `c` in direction `d`, when they lie on
/// the image.
pub open spec fn step_from(c: Coordinates, d: Direction, cs: int) -> Coordinates {
    Coordinates {
        x: (c.x + step_x(d) * cs) as i32,
        y: (c.y + step_y(d) * cs) as i32,
    }
}

pub open spec fn step_inside(img: Seq<Vec<RGB>>, c: Coordinates, d: Direction, cs: int) -> bool {
    inside(img, c.x + step_x(d) * cs, c.y + step_y(d) * cs)
}

/// How far a direction pushes a coordinate: the quantity that the far edge
/// of a block maximises.
pub open spec fn dir_key(d: Direction, c: Coordinates) -> int {
    match d {
        Direction::RIGHT => c.x as int,
        Direction::DOWN => c.y as int,
        Direction::LEFT => -c.x,
        Direction::UP => -c.y,
    }
}

/// The direction in which the chooser picks along the far edge.
pub open spec fn side_of(d: Direction, cc: CodelChooser) -> Direction {
    match cc {
        CodelChooser::LEFT => counterclockwise(d),
        CodelChooser::RIGHT => clockwise(d),
    }
}

/// `c` is the exit codel of `block`: on the far edge in direction `d`,
/// and farthest along that edge toward the side that `cc` picks.
pub open spec fn is_exit(block: Set<Coordinates>, d: Direction, cc: CodelChooser, c: Coordinates) -> bool {
    &&& block.contains(c)
    &&& forall|b: Coordinates|
        #[trigger] block.contains(b) ==> dir_key(d, b) < dir_key(d, c) || (dir_key(d, b) == dir_key(
            d,
            c,
        ) && dir_key(side_of(d, cc), b) <= dir_key(side_of(d, cc), c))
}

/// The exit codel of `block`.
pub open spec fn exit_of(block: Set<Coordinates>, d: Direction, cc: CodelChooser) -> Coordinates {
    choose|c: Coordinates| is_exit(block, d, cc, c)
}

/// A block has at most one exit codel for each direction and chooser.
pub proof fn lemma_exit_unique(
    block: Set<Coordinates>,
    d: Direction,
    cc: CodelChooser,
    c1: Coordinates,
    c2: Coordinates,
)
    requires
        is_exit(block, d, cc, c1),
        is_exit(block, d, cc, c2),
    ensures
        c1 == c2,
{
    assert(block.contains(c1));
    assert(block.contains(c2));
}

/// An exit codel is the one that `exit_of` names.
pub proof fn lemma_exit_of(block: Set<Coordinates>, d: Direction, cc: CodelChooser, c: Coordinates)
    requires
        is_exit(block, d, cc, c),
    ensures
        exit_of(block, d, cc) == c,
{
    lemma_exit_unique(block, d, cc, exit_of(block, d, cc), c);
}

pub fn get_x(p: &Coordinates) -> (r: i32)
    ensures
        r == p.x,
{
    p.x
}

pub fn get_y(p: &Coordinates) -> (r: i32)
    ensures
        r == p.y,
{
    p.y
}

fn key(d: Direction, c: &Coordinates) -> (r: i64)
    ensures
        r == dir_key(d, *c),
{
    match d {
        Direction::RIGHT => get_x(c) as i64,
        Direction::DOWN => get_y(c) as i64,
        Direction::LEFT => -(get_x(c) as i64),
        Direction::UP => -(get_y(c) as i64),
    }
}

fn exit_codel(block: &[Coordinates], d: Direction, cc: CodelChooser) -> (r: Coordinates)
    requires
        block@.len() > 0,
    ensures
        is_exit(block@.to_set(), d, cc, r),
{
    let side = match cc {
        CodelChooser::LEFT => match d {
            Direction::RIGHT => Direction::UP,
            Direction::DOWN => Direction::RIGHT,
            Direction::LEFT => Direction::DOWN,
            Direction::UP => Direction::LEFT,
        },
        CodelChooser::RIGHT => d.next(),
    };
    let mut best = block[0];
    let mut i: usize = 1;
    assert(block@.subrange(0, 1)[0] == best);
    while i < block.len()
        invariant
            1 <= i <= block@.len(),
            side == side_of(d, cc),
            block@.subrange(0, i as int).contains(best),
            forall|j: int|
                0 <= j < i ==> dir_key(d, #[trigger] block@[j]) < dir_key(d, best) || (dir_key(
                    d,
                    block@[j],
                ) == dir_key(d, best) && dir_key(side, block@[j]) <= dir_key(side, best)),
        decreases block@.len() - i,
    {
        let b = block[i];
        let kb = key(d, &b);
        let kbest = key(d, &best);
        if kb > kbest || (kb == kbest && key(side, &b) > key(side, &best)) {
            best = b;
        }
        proof {
            assert(block@.subrange(0, i + 1).contains(best)) by {
                if best == b {
                    assert(block@.subrange(0, i + 1)[i as int] == b);
                } else {
                    let k = choose|k: int| 0 <= k < i && block@.subrange(0, i as int)[k] == best;
                    assert(block@.subrange(0, i + 1)[k] == best);
                }
            }
        }
        i += 1;
    }
    proof {
        assert(block@.subrange(0, block@.len() as int) =~= block@);
        assert forall|b: Coordinates| #[trigger] block@.to_set().contains(b) implies dir_key(d, b)
            < dir_key(d, best) || (dir_key(d, b) == dir_key(d, best) && dir_key(side_of(d, cc), b)
            <= dir_key(side_of(d, cc), best)) by {
            let j = choose|j: int| 0 <= j < block@.len() && block@[j] == b;
            assert(block@[j] == b);
        }
    }
    best
}

/// The exit codels of `block` in direction `dp`: the first for the
/// chooser pointing left, the second for the chooser pointing right.
pub fn block_dp_corners(dp: &Direction, block: &[Coordinates]) -> (r: (Coordinates, Coordinates))
    requires
        block@.len() > 0,
    ensures
        is_exit(block@.to_set(), *dp, CodelChooser::LEFT, r.0),
        is_exit(block@.to_set(), *dp, CodelChooser::RIGHT, r.1),
{
    (exit_codel(block, *dp, CodelChooser::LEFT), exit_codel(block, *dp, CodelChooser::RIGHT))
}

/// Whether `new_pos` lies on the image.
pub fn in_range(new_pos: &Coordinates, rgb_img: &Vec<Vec<RGB>>) -> (r: bool)
    requires
        well_formed(rgb_img@),
    ensures
        r == in_image(rgb_img@, *new_pos),
{
    let width = rgb_img[0].len() as i32;
    let height = rgb_img.len() as i32;
    new_pos.x < width && new_pos.x >= 0 && new_pos.y < height && new_pos.y >= 0
}

/// Whether the codel at `new_pos` has colour `color`.
pub fn is_color(new_pos: &Coordinates, rgb_img: &Vec<Vec<RGB>>, color: RGB) -> (r: bool)
    requires
        well_formed(rgb_img@),
        in_image(rgb_img@, *new_pos),
    ensures
        r == (pixel(rgb_img@, *new_pos) == color),
{
    rgb_img[new_pos.y as usize][new_pos.x as usize] == color
}

/// `a` and `b` are `cs` apart along one axis.
pub open spec fn adjacent(cs: int, a: Coordinates, b: Coordinates) -> bool {
    ||| b.x == a.x + cs && b.y == a.y
    ||| b.x == a.x - cs && b.y == a.y
    ||| b.y == a.y + cs && b.x == a.x
    ||| b.y == a.y - cs && b.x == a.x
}

/// `c` lies on the image and has colour `color`.
pub open spec fn same_color(img: Seq<Vec<RGB>>, color: RGB, c: Coordinates) -> bool {
    in_image(img, c) && pixel(img, c) == color
}

/// `p` is a walk of adjacent codels, all of colour `color`.
pub open spec fn is_path(img: Seq<Vec<RGB>>, cs: int, color: RGB, p: Seq<Coordinates>) -> bool {
    &&& p.len() > 0
    &&& forall|i: int| 0 <= i < p.len() ==> same_color(img, color, #[trigger] p[i])
    &&& forall|i: int| 0 <= i < p.len() - 1 ==> adjacent(cs, #[trigger] p[i], p[i + 1])
}

/// `c` can be reached from `seed` through codels of the seed's colour.
pub open spec fn reachable(img: Seq<Vec<RGB>>, cs: int, seed: Coordinates, c: Coordinates) -> bool {
    exists|p: Seq<Coordinates>|
        #![trigger is_path(img, cs, pixel(img, seed), p), p.last()]
        is_path(img, cs, pixel(img, seed), p) && p[0] == seed && p.last() == c
}

/// How many more codels of size `cs` fit from `c` up to the edge of the
/// image in direction `d`.
pub open spec fn room(img: Seq<Vec<RGB>>, c: Coordinates, d: Direction) -> int {
    match d {
        Direction::RIGHT => width(img) - c.x,
        Direction::DOWN => height(img) - c.y,
        Direction::LEFT => c.x + 1,
        Direction::UP => c.y + 1,
    }
}

/// The last codel reached from `c` by stepping `cs` at a time in direction
/// `d` while the colour stays that of `c`.
pub open spec fn slide_end(img: Seq<Vec<RGB>>, cs: int, c: Coordinates, d: Direction) -> Coordinates
    decreases room(img, c, d),
    via lemma_slide_end_decreases
{
    if well_formed(img) && cs > 0 && step_inside(img, c, d, cs) && pixel(img, step_from(c, d, cs))
        == pixel(img, c) {
        slide_end(img, cs, step_from(c, d, cs), d)
    } else {
        c
    }
}

#[via_fn]
proof fn lemma_slide_end_decreases(img: Seq<Vec<RGB>>, cs: int, c: Coordinates, d: Direction) {
    if well_formed(img) && cs > 0 && step_inside(img, c, d, cs) && pixel(img, step_from(c, d, cs))
        == pixel(img, c) {
        let n = step_from(c, d, cs);
        assert(n.x == c.x + step_x(d) * cs);
        assert(n.y == c.y + step_y(d) * cs);
        assert(0 <= room(img, n, d) < room(img, c, d));
    }
}

/// The block of `pos`: the codels of its colour reachable from it for a
/// chromatic colour, and for any other colour the single codel where a
/// slide in direction `d` stops.
pub open spec fn block_set(img: Seq<Vec<RGB>>, cs: int, pos: Coordinates, d: Direction) -> Set<
    Coordinates,
> {
    if chromatic(pixel(img, pos)) {
        Set::new(|c: Coordinates| reachable(img, cs, pos, c))
    } else {
        set![slide_end(img, cs, pos, d)]
    }
}

proof fn lemma_reach_start(img: Seq<Vec<RGB>>, cs: int, seed: Coordinates)
    requires
        in_image(img, seed),
    ensures
        reachable(img, cs, seed, seed),
{
    let p = seq![seed];
    assert(is_path(img, cs, pixel(img, seed), p));
    assert(p.last() == seed);
}

proof fn lemma_reach_step(img: Seq<Vec<RGB>>, cs: int, seed: Coordinates, a: Coordinates, b: Coordinates)
    requires
        reachable(img, cs, seed, a),
        adjacent(cs, a, b),
        same_color(img, pixel(img, seed), b),
    ensures
        reachable(img, cs, seed, b),
{
    let p = choose|p: Seq<Coordinates>|
        is_path(img, cs, pixel(img, seed), p) && p[0] == seed && p.last() == a;
    let q = p.push(b);
    assert(q[q.len() - 2] == a);
    assert forall|i: int| 0 <= i < q.len() - 1 implies adjacent(cs, #[trigger] q[i], q[i + 1]) by {
        if i < p.len() - 1 {
            assert(q[i] == p[i] && q[i + 1] == p[i + 1]);
        }
    }
    assert forall|i: int| 0 <= i < q.len() implies same_color(img, pixel(img, seed), #[trigger] q[i]) by {
        if i < p.len() {
            assert(q[i] == p[i]);
        }
    }
    assert(is_path(img, cs, pixel(img, seed), q));
    assert(q.last() == b);
}

/// A set that holds `seed` and every same-coloured neighbour of its own
/// members holds everything reachable from `seed`.
proof fn lemma_closed_holds_reachable(
    img: Seq<Vec<RGB>>,
    cs: int,
    seed: Coordinates,
    s: Set<Coordinates>,
    c: Coordinates,
)
    requires
        s.contains(seed),
        forall|a: Coordinates, b: Coordinates|
            #![trigger s.contains(a), adjacent(cs, a, b)]
            s.contains(a) && adjacent(cs, a, b) && same_color(img, pixel(img, seed), b) ==> s.contains(b),
        reachable(img, cs, seed, c),
    ensures
        s.contains(c),
{
    let p = choose|p: Seq<Coordinates>|
        is_path(img, cs, pixel(img, seed), p) && p[0] == seed && p.last() == c;
    lemma_closed_holds_prefix(img, cs, seed, s, p, p.len() - 1);
}

proof fn lemma_closed_holds_prefix(
    img: Seq<Vec<RGB>>,
    cs: int,
    seed: Coordinates,
    s: Set<Coordinates>,
    p: Seq<Coordinates>,
    k: int,
)
    requires
        s.contains(seed),
        forall|a: Coordinates, b: Coordinates|
            #![trigger s.contains(a), adjacent(cs, a, b)]
            s.contains(a) && adjacent(cs, a, b) && same_color(img, pixel(img, seed), b) ==> s.contains(b),
        is_path(img, cs, pixel(img, seed), p),
        p[0] == seed,
        0 <= k < p.len(),
    ensures
        s.contains(p[k]),
    decreases k,
{
    if k > 0 {
        lemma_closed_holds_prefix(img, cs, seed, s, p, k - 1);
        assert(adjacent(cs, p[k - 1], p[k]));
        assert(same_color(img, pixel(img, seed), p[k]));
    }
}

/// The codel `cs` away from `c` in direction `d`, if it lies on the image.
fn neighbor(c: Coordinates, d: Direction, cs: i32, rgb_img: &Vec<Vec<RGB>>) -> (r: Option<Coordinates>)
    requires
        well_formed(rgb_img@),
    ensures
        r == if step_inside(rgb_img@, c, d, cs as int) {
            Some(step_from(c, d, cs as int))
        } else {
            None::<Coordinates>
        },
{
    let off = cs as i64;
    let (x, y) = match d {
        Direction::RIGHT => (c.x as i64 + off, c.y as i64),
        Direction::DOWN => (c.x as i64, c.y as i64 + off),
        Direction::LEFT => (c.x as i64 - off, c.y as i64),
        Direction::UP => (c.x as i64, c.y as i64 - off),
    };
    let width = rgb_img[0].len() as i64;
    let height = rgb_img.len() as i64;
    if 0 <= x && x < width && 0 <= y && y < height {
        Some(Coordinates { x: x as i32, y: y as i32 })
    } else {
        None
    }
}

/// The last codel of the colour of `pos` met when stepping from `pos` in
/// direction `dp`.
fn get_last_codel_in_dir(
    pos: Coordinates,
    rgb_img: &Vec<Vec<RGB>>,
    codel_size: i32,
    dp: Direction,
) -> (r: Coordinates)
    requires
        well_formed(rgb_img@),
        in_image(rgb_img@, pos),
        codel_size > 0,
    ensures
        r == slide_end(rgb_img@, codel_size as int, pos, dp),
{
    let color = rgb_img[pos.y as usize][pos.x as usize];
    let mut current = pos;
    loop
        invariant
            well_formed(rgb_img@),
            codel_size > 0,
            in_image(rgb_img@, current),
            pixel(rgb_img@, current) == color,
            slide_end(rgb_img@, codel_size as int, pos, dp) == slide_end(
                rgb_img@,
                codel_size as int,
                current,
                dp,
            ),
        decreases room(rgb_img@, current, dp),
    {
        match neighbor(current, dp, codel_size, rgb_img) {
            Some(n) => {
                if is_color(&n, rgb_img, color) {
                    assert(n.x == current.x + step_x(dp) * codel_size);
                    assert(n.y == current.y + step_y(dp) * codel_size);
                    current = n;
                } else {
                    return current;
                }
            },
            None => {
                return current;
            },
        }
    }
}

pub open spec fn count_row(r: Seq<bool>) -> nat
    decreases r.len(),
{
    if r.len() == 0 {
        0
    } else {
        count_row(r.drop_last()) + if r.last() {
            0nat
        } else {
            1nat
        }
    }
}

/// The number of unmarked cells.
pub open spec fn count_unmarked(m: Seq<Vec<bool>>) -> nat
    decreases m.len(),
{
    if m.len() == 0 {
        0
    } else {
        count_unmarked(m.drop_last()) + count_row(m.last()@)
    }
}

proof fn lemma_count_row_mark(r: Seq<bool>, i: int)
    requires
        0 <= i < r.len(),
        !r[i],
    ensures
        count_row(r.update(i, true)) + 1 == count_row(r),
    decreases r.len(),
{
    let u = r.update(i, true);
    if i == r.len() - 1 {
        assert(u.drop_last() =~= r.drop_last());
    } else {
        assert(u.drop_last() =~= r.drop_last().update(i, true));
        lemma_count_row_mark(r.drop_last(), i);
    }
}

proof fn lemma_count_mark(m: Seq<Vec<bool>>, y: int, x: int, row: Vec<bool>)
    requires
        0 <= y < m.len(),
        0 <= x < m[y]@.len(),
        !m[y]@[x],
        row@ == m[y]@.update(x, true),
    ensures
        count_unmarked(m.update(y, row)) + 1 == count_unmarked(m),
    decreases m.len(),
{
    let u = m.update(y, row);
    if y == m.len() - 1 {
        assert(u.drop_last() =~= m.drop_last());
        lemma_count_row_mark(m[y]@, x);
    } else {
        assert(u.drop_last() =~= m.drop_last().update(y, row));
        lemma_count_mark(m.drop_last(), y, x, row);
    }
}

pub open spec fn marked(m: Seq<Vec<bool>>, c: Coordinates) -> bool {
    m[c.y as int]@[c.x as int]
}

/// `m` has one cell for each codel of the image.
pub open spec fn marks_fit(m: Seq<Vec<bool>>, img: Seq<Vec<RGB>>) -> bool {
    &&& m.len() == height(img)
    &&& forall|y: int| 0 <= y < m.len() ==> (#[trigger] m[y])@.len() == width(img)
}

fn new_marks(rgb_img: &Vec<Vec<RGB>>) -> (r: Vec<Vec<bool>>)
    requires
        well_formed(rgb_img@),
    ensures
        marks_fit(r@, rgb_img@),
        forall|c: Coordinates| in_image(rgb_img@, c) ==> !#[trigger] marked(r@, c),
{
    let w = rgb_img[0].len();
    let mut marks: Vec<Vec<bool>> = Vec::new();
    let mut y: usize = 0;
    while y < rgb_img.len()
        invariant
            well_formed(rgb_img@),
            w == width(rgb_img@),
            y <= rgb_img@.len(),
            marks@.len() == y,
            forall|k: int| 0 <= k < y ==> (#[trigger] marks@[k])@.len() == w,
            forall|k: int, j: int| 0 <= k < y && 0 <= j < w ==> !(#[trigger] marks@[k]@[j]),
        decreases rgb_img@.len() - y,
    {
        let mut row: Vec<bool> = Vec::new();
        let mut x: usize = 0;
        while x < w
            invariant
                x <= w,
                row@.len() == x,
                forall|j: int| 0 <= j < x ==> !(#[trigger] row@[j]),
            decreases w - x,
        {
            row.push(false);
            x += 1;
        }
        marks.push(row);
        y += 1;
    }
    marks
}

/// The codels already found: those whose neighbours were looked at and
/// those still waiting for it.
pub open spec fn known(counted: Seq<Coordinates>, waiting: Seq<Coordinates>) -> Set<Coordinates> {
    counted.to_set().union(waiting.to_set())
}

/// The marks on the image are exactly the codels of `k`.
pub open spec fn marks_agree(m: Seq<Vec<bool>>, img: Seq<Vec<RGB>>, k: Set<Coordinates>) -> bool {
    forall|c: Coordinates|
        #![trigger marked(m, c)]
        #![trigger k.contains(c)]
        in_image(img, c) ==> (marked(m, c) <==> k.contains(c))
}

/// The bookkeeping of a flood fill: no codel twice, none both counted and
/// waiting, every one marked.
pub open spec fn fill_state(
    img: Seq<Vec<RGB>>,
    m: Seq<Vec<bool>>,
    counted: Seq<Coordinates>,
    waiting: Seq<Coordinates>,
) -> bool {
    &&& marks_fit(m, img)
    &&& marks_agree(m, img, known(counted, waiting))
    &&& counted.no_duplicates()
    &&& waiting.no_duplicates()
    &&& forall|c: Coordinates| #[trigger] counted.contains(c) ==> !waiting.contains(c)
}

fn try_neighbor(
    c: Coordinates,
    d: Direction,
    codel_size: i32,
    rgb_img: &Vec<Vec<RGB>>,
    marks: &mut Vec<Vec<bool>>,
    not_counted: &mut Vec<Coordinates>,
    color: RGB,
    Ghost(counted): Ghost<Seq<Coordinates>>,
)
    requires
        well_formed(rgb_img@),
        codel_size > 0,
        fill_state(rgb_img@, old(marks)@, counted, old(not_counted)@),
    ensures
        fill_state(rgb_img@, final(marks)@, counted, final(not_counted)@),
        final(not_counted)@ == old(not_counted)@ || (final(not_counted)@ == old(not_counted)@.push(
            step_from(c, d, codel_size as int),
        ) && step_inside(rgb_img@, c, d, codel_size as int) && same_color(
            rgb_img@,
            color,
            step_from(c, d, codel_size as int),
        )),
        step_inside(rgb_img@, c, d, codel_size as int) && pixel(
            rgb_img@,
            step_from(c, d, codel_size as int),
        ) == color ==> known(counted, final(not_counted)@).contains(
            step_from(c, d, codel_size as int),
        ),
        count_unmarked(final(marks)@) + final(not_counted)@.len() == count_unmarked(old(marks)@)
            + old(not_counted)@.len(),
{
    if let Some(n) = neighbor(c, d, codel_size, rgb_img) {
        if is_color(&n, rgb_img, color) {
            let y = n.y as usize;
            let x = n.x as usize;
            if !marks[y][x] {
                let ghost m0 = marks@;
                let ghost w0 = not_counted@;
                marks[y].set(x, true);
                not_counted.push(n);
                proof {
                    lemma_count_mark(m0, y as int, x as int, marks@[y as int]);
                    assert(marks@ == m0.update(y as int, marks@[y as int]));
                    assert(!known(counted, w0).contains(n));
                    w0.lemma_push_to_set_commute(n);
                    assert(not_counted@.to_set() =~= w0.to_set().insert(n));
                    assert(known(counted, not_counted@) =~= known(counted, w0).insert(n));
                    assert forall|q: Coordinates| #[trigger] counted.contains(q) implies !not_counted@.contains(q) by {
                        if q == n {
                            assert(known(counted, w0).contains(q));
                        } else {
                            assert(!w0.contains(q));
                            if not_counted@.contains(q) {
                                let i = choose|i: int| 0 <= i < not_counted@.len() && not_counted@[i] == q;
                                assert(i < w0.len());
                                assert(w0[i] == q);
                            }
                        }
                    }
                    assert(marks_fit(marks@, rgb_img@)) by {
                        assert forall|k: int| 0 <= k < marks@.len() implies (#[trigger] marks@[k])@.len() == width(rgb_img@) by {
                            if k != y {
                                assert(marks@[k] == m0[k]);
                            }
                        }
                    }
                    assert forall|q: Coordinates| in_image(rgb_img@, q) implies (marked(marks@, q) <==> known(counted, not_counted@).contains(q)) by {
                        if q == n {
                        } else if q.y == n.y {
                            assert(marked(marks@, q) == marked(m0, q));
                        } else {
                            assert(marks@[q.y as int] == m0[q.y as int]);
                        }
                    }
                }
            }
        }
    }
}

/// `later` extends `earlier` with codels next to `c` of colour `color`.
pub open spec fn grown_from(
    img: Seq<Vec<RGB>>,
    cs: int,
    c: Coordinates,
    color: RGB,
    earlier: Seq<Coordinates>,
    later: Seq<Coordinates>,
) -> bool {
    &&& earlier.len() <= later.len()
    &&& later.subrange(0, earlier.len() as int) == earlier
    &&& forall|i: int|
        earlier.len() <= i < later.len() ==> adjacent(cs, c, #[trigger] later[i]) && same_color(
            img,
            color,
            later[i],
        )
}

proof fn lemma_grown_known(
    img: Seq<Vec<RGB>>,
    cs: int,
    c: Coordinates,
    color: RGB,
    counted: Seq<Coordinates>,
    earlier: Seq<Coordinates>,
    later: Seq<Coordinates>,
    q: Coordinates,
)
    requires
        grown_from(img, cs, c, color, earlier, later),
        known(counted, earlier).contains(q),
    ensures
        known(counted, later).contains(q),
{
    if earlier.contains(q) {
        let i = choose|i: int| 0 <= i < earlier.len() && earlier[i] == q;
        assert(later.subrange(0, earlier.len() as int)[i] == q);
        assert(later[i] == q);
    }
}

proof fn lemma_step_grown(
    img: Seq<Vec<RGB>>,
    cs: int,
    c: Coordinates,
    d: Direction,
    color: RGB,
    earlier: Seq<Coordinates>,
    later: Seq<Coordinates>,
)
    requires
        well_formed(img),
        cs > 0,
        later == earlier || (later == earlier.push(step_from(c, d, cs)) && step_inside(img, c, d, cs)
            && same_color(img, color, step_from(c, d, cs))),
    ensures
        grown_from(img, cs, c, color, earlier, later),
{
    assert(later.subrange(0, earlier.len() as int) =~= earlier);
    if later != earlier {
        let n = step_from(c, d, cs);
        assert(later[earlier.len() as int] == n);
        assert(n.x == c.x + step_x(d) * cs);
        assert(n.y == c.y + step_y(d) * cs);
        assert(adjacent(cs, c, n));
    }
}

/// Puts each neighbour of `current_pos` of colour `color` that is not
/// marked yet on the waiting list, and marks it.
fn check_adjacent_codels(
    current_pos: Coordinates,
    codel_size: i32,
    rgb_img: &Vec<Vec<RGB>>,
    marks: &mut Vec<Vec<bool>>,
    not_counted: &mut Vec<Coordinates>,
    color: RGB,
    Ghost(counted): Ghost<Seq<Coordinates>>,
)
    requires
        well_formed(rgb_img@),
        codel_size > 0,
        fill_state(rgb_img@, old(marks)@, counted, old(not_counted)@),
    ensures
        fill_state(rgb_img@, final(marks)@, counted, final(not_counted)@),
        grown_from(
            rgb_img@,
            codel_size as int,
            current_pos,
            color,
            old(not_counted)@,
            final(not_counted)@,
        ),
        forall|b: Coordinates|
            adjacent(codel_size as int, current_pos, b) && same_color(rgb_img@, color, b)
                ==> #[trigger] known(counted, final(not_counted)@).contains(b),
        count_unmarked(final(marks)@) + final(not_counted)@.len() == count_unmarked(old(marks)@)
            + old(not_counted)@.len(),
{
    let ghost w0 = not_counted@;
    let ghost cs = codel_size as int;
    try_neighbor(current_pos, Direction::RIGHT, codel_size, rgb_img, marks, not_counted, color, Ghost(counted));
    let ghost w1 = not_counted@;
    try_neighbor(current_pos, Direction::DOWN, codel_size, rgb_img, marks, not_counted, color, Ghost(counted));
    let ghost w2 = not_counted@;
    try_neighbor(current_pos, Direction::LEFT, codel_size, rgb_img, marks, not_counted, color, Ghost(counted));
    let ghost w3 = not_counted@;
    try_neighbor(current_pos, Direction::UP, codel_size, rgb_img, marks, not_counted, color, Ghost(counted));
    let ghost w4 = not_counted@;
    proof {
        lemma_step_grown(rgb_img@, cs, current_pos, Direction::RIGHT, color, w0, w1);
        lemma_step_grown(rgb_img@, cs, current_pos, Direction::DOWN, color, w1, w2);
        lemma_step_grown(rgb_img@, cs, current_pos, Direction::LEFT, color, w2, w3);
        lemma_step_grown(rgb_img@, cs, current_pos, Direction::UP, color, w3, w4);
        assert(grown_from(rgb_img@, cs, current_pos, color, w0, w4)) by {
            assert(w4.subrange(0, w0.len() as int) =~= w0);
            assert forall|i: int| w0.len() <= i < w4.len() implies adjacent(cs, current_pos, #[trigger] w4[i])
                && same_color(rgb_img@, color, w4[i]) by {
                if i < w1.len() {
                    assert(w4[i] == w1[i]);
                } else if i < w2.len() {
                    assert(w4[i] == w2[i]);
                } else if i < w3.len() {
                    assert(w4[i] == w3[i]);
                }
            }
        }
        assert(grown_from(rgb_img@, cs, current_pos, color, w1, w4)) by {
            assert(w4.subrange(0, w1.len() as int) =~= w1);
        }
        assert(grown_from(rgb_img@, cs, current_pos, color, w2, w4)) by {
            assert(w4.subrange(0, w2.len() as int) =~= w2);
        }
        assert forall|b: Coordinates|
            adjacent(cs, current_pos, b) && same_color(rgb_img@, color, b)
                implies #[trigger] known(counted, w4).contains(b) by {
            if b.x == current_pos.x + cs && b.y == current_pos.y {
                assert(b == step_from(current_pos, Direction::RIGHT, cs));
                lemma_grown_known(rgb_img@, cs, current_pos, color, counted, w1, w4, b);
            } else if b.y == current_pos.y + cs && b.x == current_pos.x {
                assert(b == step_from(current_pos, Direction::DOWN, cs));
                lemma_grown_known(rgb_img@, cs, current_pos, color, counted, w2, w4, b);
            } else if b.x == current_pos.x - cs && b.y == current_pos.y {
                assert(b == step_from(current_pos, Direction::LEFT, cs));
                lemma_grown_known(rgb_img@, cs, current_pos, color, counted, w3, w4, b);
            } else {
                assert(b == step_from(current_pos, Direction::UP, cs));
            }
        }
    }
}

proof fn lemma_single_to_set(x: Coordinates)
    ensures
        seq![x].to_set() == set![x],
{
    let e = Seq::<Coordinates>::empty();
    e.lemma_push_to_set_commute(x);
    assert(e.to_set() =~= Set::<Coordinates>::empty());
    assert(e.push(x) == seq![x]);
    assert(set![x] =~= Set::<Coordinates>::empty().insert(x));
}

/// The block of the codel at `pos` (see `block_set`), each codel once. For
/// a chromatic colour it holds `pos`, only codels of that colour, and each
/// of them is joined to `pos` through codels of that colour.
pub fn get_block(
    rgb_img: &Vec<Vec<RGB>>,
    pos: Coordinates,
    codel_size: i32,
    dp: Direction,
) -> (r: Vec<Coordinates>)
    requires
        well_formed(rgb_img@),
        in_image(rgb_img@, pos),
        codel_size > 0,
    ensures
        r@.no_duplicates(),
        r@.len() > 0,
        r@.to_set() == block_set(rgb_img@, codel_size as int, pos, dp),
        chromatic(pixel(rgb_img@, pos)) ==> r@.contains(pos) && forall|c: Coordinates|
            #[trigger] r@.contains(c) ==> same_color(rgb_img@, pixel(rgb_img@, pos), c) && reachable(
                rgb_img@,
                codel_size as int,
                pos,
                c,
            ),
{
    let ghost img = rgb_img@;
    let ghost cs = codel_size as int;
    let color = rgb_img[pos.y as usize][pos.x as usize];
    if get_color_index(color).is_none() {
        let last = get_last_codel_in_dir(pos, rgb_img, codel_size, dp);
        let mut single: Vec<Coordinates> = Vec::new();
        single.push(last);
        proof {
            assert(single@ == seq![last]);
            lemma_single_to_set(last);
        }
        return single;
    }
    let mut marks = new_marks(rgb_img);
    let mut counted: Vec<Coordinates> = Vec::new();
    let mut not_counted: Vec<Coordinates> = Vec::new();
    let ghost m0 = marks@;
    marks[pos.y as usize].set(pos.x as usize, true);
    not_counted.push(pos);
    proof {
        lemma_reach_start(img, cs, pos);
        assert(not_counted@ == seq![pos]);
        lemma_single_to_set(pos);
        assert(known(counted@, not_counted@) =~= set![pos]);
        assert forall|q: Coordinates| in_image(img, q) implies (marked(marks@, q) <==> known(counted@, not_counted@).contains(q)) by {
            assert(!marked(m0, q));
            if q == pos {
                assert(marked(marks@, q));
                assert(known(counted@, not_counted@).contains(q));
            } else {
                if q.y == pos.y {
                    assert(marked(marks@, q) == marked(m0, q));
                } else {
                    assert(marks@[q.y as int] == m0[q.y as int]);
                }
                assert(!known(counted@, not_counted@).contains(q));
            }
        }
        assert(marks_fit(marks@, img)) by {
            assert forall|k: int| 0 <= k < marks@.len() implies (#[trigger] marks@[k])@.len() == width(img) by {
                if k != pos.y {
                    assert(marks@[k] == m0[k]);
                }
            }
        }
    }
    while not_counted.len() > 0
        invariant
            well_formed(img),
            img == rgb_img@,
            cs == codel_size,
            codel_size > 0,
            in_image(img, pos),
            color == pixel(img, pos),
            fill_state(img, marks@, counted@, not_counted@),
            known(counted@, not_counted@).contains(pos),
            forall|c: Coordinates|
                #[trigger] known(counted@, not_counted@).contains(c) ==> same_color(img, color, c)
                    && reachable(img, cs, pos, c),
            forall|a: Coordinates, b: Coordinates|
                #![trigger counted@.contains(a), adjacent(cs, a, b)]
                counted@.contains(a) && adjacent(cs, a, b) && same_color(img, color, b) ==> known(
                    counted@,
                    not_counted@,
                ).contains(b),
        decreases 2 * count_unmarked(marks@) + not_counted@.len(),
    {
        let ghost k0 = known(counted@, not_counted@);
        let ghost c0 = counted@;
        let ghost w0 = not_counted@;
        let c = not_counted.pop().unwrap();
        counted.push(c);
        let ghost w1 = not_counted@;
        proof {
            assert(w0 == w1.push(c));
            w1.lemma_push_to_set_commute(c);
            c0.lemma_push_to_set_commute(c);
            assert(known(counted@, w1) =~= k0);
            assert(w0.contains(c)) by {
                assert(w0[w0.len() - 1] == c);
            }
            assert(!c0.contains(c));
            assert(!w1.contains(c)) by {
                if w1.contains(c) {
                    let i = choose|i: int| 0 <= i < w1.len() && w1[i] == c;
                    assert(w0[i] == c && w0[w0.len() - 1] == c);
                }
            }
            assert(w1.no_duplicates()) by {
                assert forall|i: int, j: int| 0 <= i < w1.len() && 0 <= j < w1.len() && i != j implies w1[i] != w1[j] by {
                    assert(w0[i] == w1[i] && w0[j] == w1[j]);
                }
            }
            assert(counted@.no_duplicates()) by {
                assert forall|i: int, j: int| 0 <= i < counted@.len() && 0 <= j < counted@.len() && i != j implies counted@[i] != counted@[j] by {
                    if i == c0.len() {
                        assert(c0.contains(counted@[j]) ==> counted@[j] != c);
                        assert(c0[j] == counted@[j]);
                    } else if j == c0.len() {
                        assert(c0[i] == counted@[i]);
                    } else {
                        assert(c0[i] == counted@[i] && c0[j] == counted@[j]);
                    }
                }
            }
            assert forall|q: Coordinates| #[trigger] counted@.contains(q) implies !w1.contains(q) by {
                if q != c {
                    let i = choose|i: int| 0 <= i < counted@.len() && counted@[i] == q;
                    assert(c0[i] == q);
                    assert(c0.contains(q));
                    if w1.contains(q) {
                        let j = choose|j: int| 0 <= j < w1.len() && w1[j] == q;
                        assert(w0[j] == q);
                    }
                }
            }
            assert(k0.contains(c));
        }
        check_adjacent_codels(c, codel_size, rgb_img, &mut marks, &mut not_counted, color, Ghost(counted@));
        proof {
            let w2 = not_counted@;
            assert forall|q: Coordinates| #[trigger] known(counted@, w2).contains(q) implies same_color(img, color, q)
                && reachable(img, cs, pos, q) by {
                if !k0.contains(q) {
                    assert(!counted@.contains(q));
                    let i = choose|i: int| 0 <= i < w2.len() && w2[i] == q;
                    if i < w1.len() {
                        assert(w2.subrange(0, w1.len() as int)[i] == q);
                        assert(w1.contains(q));
                    }
                    assert(adjacent(cs, c, w2[i]));
                    lemma_reach_step(img, cs, pos, c, q);
                }
            }
            assert forall|a: Coordinates, b: Coordinates|
                #![trigger counted@.contains(a), adjacent(cs, a, b)]
                counted@.contains(a) && adjacent(cs, a, b) && same_color(img, color, b) implies known(
                    counted@,
                    w2,
                ).contains(b) by {
                if a == c {
                    assert(known(counted@, w2).contains(b));
                } else {
                    let i = choose|i: int| 0 <= i < counted@.len() && counted@[i] == a;
                    assert(c0[i] == a);
                    assert(c0.contains(a));
                    assert(k0.contains(b));
                    lemma_grown_known(img, cs, c, color, counted@, w1, w2, b);
                }
            }
            lemma_grown_known(img, cs, c, color, counted@, w1, w2, pos);
        }
    }
    proof {
        let s = counted@.to_set();
        assert(known(counted@, not_counted@) =~= s);
        assert forall|q: Coordinates| s.contains(q) <==> reachable(img, cs, pos, q) by {
            if reachable(img, cs, pos, q) {
                lemma_closed_holds_reachable(img, cs, pos, s, q);
            }
        }
        assert(s =~= block_set(img, cs, pos, dp));
        assert(s.contains(pos));
        assert forall|c: Coordinates| #[trigger] counted@.contains(c) implies same_color(img, color, c)
            && reachable(img, cs, pos, c) by {
            assert(s.contains(c));
        }
    }
    counted
}

/// The number of codels of a block, saturating at `i32::MAX`.
pub fn get_size(block: &Vec<Coordinates>) -> (r: i32)
    ensures
        r as int == if block@.len() > i32::MAX { i32::MAX as int } else { block@.len() as int },
{
    if block.len() > i32::MAX as usize {
        i32::MAX
    } else {
        block.len() as i32
    }
}

/// The block of the only codel of a one-codel image is that codel.
pub proof fn lemma_single_codel_block(img: Seq<Vec<RGB>>, cs: int, d: Direction)
    requires
        well_formed(img),
        width(img) == 1,
        height(img) == 1,
        cs > 0,
    ensures
        block_set(img, cs, Coordinates { x: 0, y: 0 }, d) == set![Coordinates { x: 0, y: 0 }],
{
    let pos = Coordinates { x: 0, y: 0 };
    if chromatic(pixel(img, pos)) {
        lemma_reach_start(img, cs, pos);
        assert forall|c: Coordinates| reachable(img, cs, pos, c) <==> c == pos by {
            if reachable(img, cs, pos, c) {
                let p = choose|p: Seq<Coordinates>|
                    is_path(img, cs, pixel(img, pos), p) && p[0] == pos && p.last() == c;
                assert(same_color(img, pixel(img, pos), p[p.len() - 1]));
            }
        }
        assert(block_set(img, cs, pos, d) =~= set![pos]);
    } else {
        assert(slide_end(img, cs, pos, d) == pos);
    }
}

/// The codel entered on leaving `block` from its exit codel for `dp` and
/// `cc`, if it lies on the image and is not black.
pub open spec fn probe(
    img: Seq<Vec<RGB>>,
    cs: int,
    block: Set<Coordinates>,
    dp: Direction,
    cc: CodelChooser,
) -> Option<Coordinates> {
    let e = exit_of(block, dp, cc);
    if step_inside(img, e, dp, cs) && pixel(img, step_from(e, dp, cs)) != black() {
        Some(step_from(e, dp, cs))
    } else {
        None
    }
}

/// The codel that the exit of `block` leads to, if it is on the image and
/// not black.
pub fn next_pos(
    dp: &Direction,
    cc: &CodelChooser,
    block: &[Coordinates],
    codel_size: i32,
    rgb_img: &Vec<Vec<RGB>>,
) -> (r: Option<Coordinates>)
    requires
        well_formed(rgb_img@),
        block@.len() > 0,
    ensures
        r == probe(rgb_img@, codel_size as int, block@.to_set(), *dp, *cc),
{
    let corners = block_dp_corners(dp, block);
    let exit = match cc {
        CodelChooser::LEFT => corners.0,
        CodelChooser::RIGHT => corners.1,
    };
    proof {
        lemma_exit_of(block@.to_set(), *dp, *cc, exit);
    }
    match neighbor(exit, *dp, codel_size, rgb_img) {
        Some(n) => {
            if is_color(&n, rgb_img, RGB(0, 0, 0)) {
                None
            } else {
                Some(n)
            }
        },
        None => None,
    }
}

/// The bound on the turns of one white slide: one for each codel and
/// direction.
pub open spec fn slide_fuel(img: Seq<Vec<RGB>>) -> nat {
    (4 * width(img) * height(img)) as nat
}

/// Where a slide through non-chromatic, non-black codels from `w` ends:
/// at the first chromatic codel, with the direction pointer and chooser of
/// that moment. A black codel or the edge turns the direction pointer
/// clockwise and toggles the chooser; meeting a codel and direction that
/// already turned, or using up `fuel` turns, abandons the slide (`None`).
pub open spec fn white_slide(
    img: Seq<Vec<RGB>>,
    cs: int,
    w: Coordinates,
    dp: Direction,
    cc: CodelChooser,
    visited: Seq<(Coordinates, Direction)>,
    fuel: nat,
) -> Option<(Coordinates, Direction, CodelChooser)>
    decreases fuel, room(img, w, dp),
    via lemma_white_slide_decreases
{
    if !(well_formed(img) && cs > 0) {
        None
    } else if step_inside(img, w, dp, cs) && pixel(img, step_from(w, dp, cs)) != black() {
        let n = step_from(w, dp, cs);
        if chromatic(pixel(img, n)) {
            Some((n, dp, cc))
        } else {
            white_slide(img, cs, n, dp, cc, visited, fuel)
        }
    } else if fuel == 0 || visited.contains((w, dp)) {
        None
    } else {
        white_slide(img, cs, w, clockwise(dp), toggled(cc), visited.push((w, dp)), (fuel - 1) as nat)
    }
}

#[via_fn]
proof fn lemma_white_slide_decreases(
    img: Seq<Vec<RGB>>,
    cs: int,
    w: Coordinates,
    dp: Direction,
    cc: CodelChooser,
    visited: Seq<(Coordinates, Direction)>,
    fuel: nat,
) {
    if well_formed(img) && cs > 0 && step_inside(img, w, dp, cs) {
        let n = step_from(w, dp, cs);
        assert(n.x == w.x + step_x(dp) * cs);
        assert(n.y == w.y + step_y(dp) * cs);
        assert(0 <= room(img, n, dp) < room(img, w, dp));
    }
}

proof fn lemma_white_slide_lands(
    img: Seq<Vec<RGB>>,
    cs: int,
    w: Coordinates,
    dp: Direction,
    cc: CodelChooser,
    visited: Seq<(Coordinates, Direction)>,
    fuel: nat,
)
    ensures
        white_slide(img, cs, w, dp, cc, visited, fuel) matches Some(r) ==> in_image(img, r.0)
            && chromatic(pixel(img, r.0)),
    decreases fuel, room(img, w, dp),
{
    if !(well_formed(img) && cs > 0) {
    } else if step_inside(img, w, dp, cs) && pixel(img, step_from(w, dp, cs)) != black() {
        let n = step_from(w, dp, cs);
        assert(n.x == w.x + step_x(dp) * cs);
        assert(n.y == w.y + step_y(dp) * cs);
        if !chromatic(pixel(img, n)) {
            lemma_white_slide_lands(img, cs, n, dp, cc, visited, fuel);
        }
    } else if fuel == 0 || visited.contains((w, dp)) {
    } else {
        lemma_white_slide_lands(
            img,
            cs,
            w,
            clockwise(dp),
            toggled(cc),
            visited.push((w, dp)),
            (fuel - 1) as nat,
        );
    }
}

fn was_visited(visited: &Vec<(Coordinates, Direction)>, c: Coordinates, d: Direction) -> (r: bool)
    ensures
        r == visited@.contains((c, d)),
{
    let mut i: usize = 0;
    while i < visited.len()
        invariant
            i <= visited@.len(),
            forall|j: int| 0 <= j < i ==> visited@[j] != (c, d),
        decreases visited@.len() - i,
    {
        if visited[i].0 == c && visited[i].1 == d {
            assert(visited@[i as int] == (c, d));
            return true;
        }
        i += 1;
    }
    false
}

fn slide_through_white(
    rgb_img: &Vec<Vec<RGB>>,
    codel_size: i32,
    entry: Coordinates,
    dp: Direction,
    cc: CodelChooser,
) -> (r: Option<(Coordinates, Direction, CodelChooser)>)
    requires
        well_formed(rgb_img@),
        codel_size > 0,
    ensures
        r == white_slide(
            rgb_img@,
            codel_size as int,
            entry,
            dp,
            cc,
            Seq::empty(),
            slide_fuel(rgb_img@),
        ),
{
    let ghost img = rgb_img@;
    let ghost cs = codel_size as int;
    let w64 = rgb_img[0].len() as u64;
    let h64 = rgb_img.len() as u64;
    assert(w64 * h64 <= 0x3fff_ffff_0000_0001) by (nonlinear_arith)
        requires
            w64 <= 0x7fff_ffff,
            h64 <= 0x7fff_ffff,
    ;
    let area = w64 * h64;
    let mut fuel: u64 = 4 * area;
    let mut w = entry;
    let mut d = dp;
    let mut c = cc;
    let mut visited: Vec<(Coordinates, Direction)> = Vec::new();
    proof {
        let wi = width(img);
        let hi = height(img);
        assert(4 * (wi * hi) == 4 * wi * hi) by (nonlinear_arith);
        assert(fuel as nat == slide_fuel(img));
        assert(visited@ =~= Seq::<(Coordinates, Direction)>::empty());
    }
    loop
        invariant
            well_formed(img),
            img == rgb_img@,
            cs == codel_size,
            codel_size > 0,
            white_slide(img, cs, entry, dp, cc, Seq::empty(), slide_fuel(img)) == white_slide(
                img,
                cs,
                w,
                d,
                c,
                visited@,
                fuel as nat,
            ),
        decreases fuel, room(img, w, d),
    {
        let next = neighbor(w, d, codel_size, rgb_img);
        let open = match next {
            Some(n) => !is_color(&n, rgb_img, RGB(0, 0, 0)),
            None => false,
        };
        if open {
            let n = next.unwrap();
            let color = rgb_img[n.y as usize][n.x as usize];
            if get_color_index(color).is_some() {
                return Some((n, d, c));
            }
            assert(n.x == w.x + step_x(d) * cs);
            assert(n.y == w.y + step_y(d) * cs);
            w = n;
        } else {
            if fuel == 0 || was_visited(&visited, w, d) {
                return None;
            }
            visited.push((w, d));
            d = d.next();
            c = c.toggle();
            fuel = fuel - 1;
        }
    }
}

/// One probe out of `block` for `dp` and `cc`: the chromatic codel reached,
/// directly or through a white slide, with the direction pointer and
/// chooser of that moment, and whether the way led through white.
pub open spec fn attempt(
    img: Seq<Vec<RGB>>,
    cs: int,
    block: Set<Coordinates>,
    dp: Direction,
    cc: CodelChooser,
) -> Option<(Coordinates, Direction, CodelChooser, bool)> {
    match probe(img, cs, block, dp, cc) {
        None => None,
        Some(n) => if chromatic(pixel(img, n)) {
            Some((n, dp, cc, false))
        } else {
            match white_slide(img, cs, n, dp, cc, Seq::empty(), slide_fuel(img)) {
                Some(t) => Some((t.0, t.1, t.2, true)),
                None => None,
            }
        },
    }
}

/// The probes from the `tries`-th on: after a failed probe an even count
/// toggles the chooser and an odd one turns the direction pointer
/// clockwise; after the eighth failure there is no exit.
pub open spec fn advance_from(
    img: Seq<Vec<RGB>>,
    cs: int,
    block: Set<Coordinates>,
    dp: Direction,
    cc: CodelChooser,
    tries: nat,
) -> Option<(Coordinates, Direction, CodelChooser, bool)>
    decreases 8 - tries,
{
    if tries >= 8 {
        None
    } else {
        match attempt(img, cs, block, dp, cc) {
            Some(r) => Some(r),
            None => if tries % 2 == 0 {
                advance_from(img, cs, block, dp, toggled(cc), tries + 1)
            } else {
                advance_from(img, cs, block, clockwise(dp), cc, tries + 1)
            },
        }
    }
}

/// The next navigation state from position `pos`.
pub open spec fn advance(
    img: Seq<Vec<RGB>>,
    cs: int,
    pos: Coordinates,
    dp: Direction,
    cc: CodelChooser,
) -> Option<(Coordinates, Direction, CodelChooser, bool)> {
    advance_from(img, cs, block_set(img, cs, pos, dp), dp, cc, 0)
}

/// The direction pointer at the `k`-th probe.
pub open spec fn probe_dp(dp: Direction, k: nat) -> Direction {
    crate::types::rotated(dp, k / 2)
}

/// The codel chooser at the `k`-th probe.
pub open spec fn probe_cc(cc: CodelChooser, k: nat) -> CodelChooser {
    if ((k + 1) / 2) % 2 == 1 {
        toggled(cc)
    } else {
        cc
    }
}

proof fn lemma_advance_from_none(
    img: Seq<Vec<RGB>>,
    cs: int,
    block: Set<Coordinates>,
    dp: Direction,
    cc: CodelChooser,
    tries: nat,
)
    requires
        tries <= 8,
    ensures
        advance_from(img, cs, block, probe_dp(dp, tries), probe_cc(cc, tries), tries) is None
            <==> forall|k: nat|
            tries <= k < 8 ==> (#[trigger] attempt(img, cs, block, probe_dp(dp, k), probe_cc(cc, k)))
                is None,
    decreases 8 - tries,
{
    if tries < 8 {
        lemma_advance_from_none(img, cs, block, dp, cc, tries + 1);
        let t = tries + 1;
        if tries % 2 == 0 {
            assert(probe_dp(dp, t) == probe_dp(dp, tries));
            assert(probe_cc(cc, t) == toggled(probe_cc(cc, tries)));
        } else {
            assert(probe_dp(dp, t) == clockwise(probe_dp(dp, tries))) by {
                assert(t / 2 == tries / 2 + 1);
                reveal_with_fuel(crate::types::rotated, 2);
            }
            assert(probe_cc(cc, t) == probe_cc(cc, tries)) by {
                assert((t + 1) / 2 == (tries + 1) / 2);
            }
        }
    }
}

/// Navigation finds no exit exactly when all eight probes, through every
/// direction and both chooser sides, fail.
pub proof fn lemma_no_exit_after_eight_failures(
    img: Seq<Vec<RGB>>,
    cs: int,
    block: Set<Coordinates>,
    dp: Direction,
    cc: CodelChooser,
)
    ensures
        advance_from(img, cs, block, dp, cc, 0) is None <==> forall|k: nat|
            k < 8 ==> (#[trigger] attempt(img, cs, block, probe_dp(dp, k), probe_cc(cc, k))) is None,
{
    lemma_advance_from_none(img, cs, block, dp, cc, 0);
    assert(probe_dp(dp, 0) == dp);
    assert(probe_cc(cc, 0) == cc);
}

fn try_exit(
    rgb_img: &Vec<Vec<RGB>>,
    codel_size: i32,
    block: &Vec<Coordinates>,
    dp: Direction,
    cc: CodelChooser,
) -> (r: Option<(Coordinates, Direction, CodelChooser, bool)>)
    requires
        well_formed(rgb_img@),
        codel_size > 0,
        block@.len() > 0,
    ensures
        r == attempt(rgb_img@, codel_size as int, block@.to_set(), dp, cc),
        r matches Some(s) ==> in_image(rgb_img@, s.0),
{
    let ghost img = rgb_img@;
    let ghost cs = codel_size as int;
    match next_pos(&dp, &cc, block.as_slice(), codel_size, rgb_img) {
        None => None,
        Some(n) => {
            proof {
                let e = exit_of(block@.to_set(), dp, cc);
                assert(n.x == e.x + step_x(dp) * cs);
                assert(n.y == e.y + step_y(dp) * cs);
            }
            let color = rgb_img[n.y as usize][n.x as usize];
            if get_color_index(color).is_some() {
                Some((n, dp, cc, false))
            } else {
                proof {
                    lemma_white_slide_lands(img, cs, n, dp, cc, Seq::empty(), slide_fuel(img));
                }
                match slide_through_white(rgb_img, codel_size, n, dp, cc) {
                    Some(t) => Some((t.0, t.1, t.2, true)),
                    None => None,
                }
            }
        },
    }
}

/// `n` clamped to `i32::MAX`.
pub open spec fn size_of(n: nat) -> int {
    if n > i32::MAX {
        i32::MAX as int
    } else {
        n as int
    }
}

/// Moves to the next block: probes out of the block at `pos` as `advance`
/// describes and, on success, updates the position, direction pointer and
/// chooser and returns the colour and size of the block reached, and
/// whether the way led through white. On `None` nothing changes.
pub fn next_color(
    rgb_img: &Vec<Vec<RGB>>,
    pos: &mut Coordinates,
    codel_size: i32,
    dp: &mut Direction,
    cc: &mut CodelChooser,
) -> (r: Option<(ColorInfo, bool)>)
    requires
        well_formed(rgb_img@),
        in_image(rgb_img@, *old(pos)),
        codel_size > 0,
    ensures
        match r {
            Some((info, slid)) => {
                &&& advance(rgb_img@, codel_size as int, *old(pos), *old(dp), *old(cc)) == Some(
                    (*final(pos), *final(dp), *final(cc), slid),
                )
                &&& in_image(rgb_img@, *final(pos))
                &&& info.color == pixel(rgb_img@, *final(pos))
                &&& info.size == size_of(
                    block_set(rgb_img@, codel_size as int, *final(pos), *final(dp)).len(),
                )
            },
            None => {
                &&& advance(rgb_img@, codel_size as int, *old(pos), *old(dp), *old(cc)) is None
                &&& *final(pos) == *old(pos)
                &&& *final(dp) == *old(dp)
                &&& *final(cc) == *old(cc)
            },
        },
{
    let ghost img = rgb_img@;
    let ghost cs = codel_size as int;
    let ghost dp0 = *dp;
    let ghost cc0 = *cc;
    let block = get_block(rgb_img, *pos, codel_size, *dp);
    let ghost bs = block@.to_set();
    let mut tries: u32 = 0;
    while tries < 8
        invariant
            well_formed(img),
            img == rgb_img@,
            cs == codel_size,
            codel_size > 0,
            block@.len() > 0,
            bs == block@.to_set(),
            bs == block_set(img, cs, *old(pos), dp0),
            *pos == *old(pos),
            dp0 == *old(dp),
            cc0 == *old(cc),
            tries <= 8,
            *dp == probe_dp(dp0, tries as nat),
            *cc == probe_cc(cc0, tries as nat),
            advance(img, cs, *old(pos), dp0, cc0) == advance_from(img, cs, bs, *dp, *cc, tries as nat),
        decreases 8 - tries,
    {
        match try_exit(rgb_img, codel_size, &block, *dp, *cc) {
            Some(found) => {
                let (p, d, c, slid) = found;
                *pos = p;
                *dp = d;
                *cc = c;
                let reached = get_block(rgb_img, p, codel_size, d);
                proof {
                    reached@.unique_seq_to_set();
                }
                return Some(
                    (
                        ColorInfo {
                            color: rgb_img[p.y as usize][p.x as usize],
                            size: get_size(&reached),
                        },
                        slid,
                    ),
                );
            },
            None => {
                let ghost t = tries as nat;
                if tries % 2 == 0 {
                    *cc = cc.toggle();
                    proof {
                        assert(probe_dp(dp0, t + 1) == probe_dp(dp0, t));
                        assert(probe_cc(cc0, t + 1) == toggled(probe_cc(cc0, t)));
                    }
                } else {
                    *dp = dp.next();
                    proof {
                        assert(probe_dp(dp0, t + 1) == clockwise(probe_dp(dp0, t))) by {
                            assert((t + 1) / 2 == t / 2 + 1);
                            reveal_with_fuel(crate::types::rotated, 2);
                        }
                        assert(probe_cc(cc0, t + 1) == probe_cc(cc0, t)) by {
                            assert((t + 2) / 2 == (t + 1) / 2);
                        }
                    }
                }
                tries += 1;
            },
        }
    }
    proof {
        crate::types::lemma_clockwise_four_times(dp0);
        assert(probe_dp(dp0, 8) == dp0);
        assert(probe_cc(cc0, 8) == cc0);
    }
    None
}

/// Removes every element equal to `element`, keeping the order of the rest.
pub fn remove_all<T: PartialEq>(arr: &mut Vec<T>, element: &T)
    ensures
        T::obeys_eq_spec() ==> final(arr)@ == old(arr)@.filter(|e: T| !e.eq_spec(element)),
{
    let ghost keep = |e: T| !e.eq_spec(element);
    let ghost initial = arr@;
    let mut i: usize = 0;
    let ghost mut j: int = 0;
    while i < arr.len()
        invariant
            0 <= i <= arr@.len(),
            0 <= j <= initial.len(),
            arr@.len() - i == initial.len() - j,
            keep == (|e: T| !e.eq_spec(element)),
            T::obeys_eq_spec() ==> arr@.subrange(0, i as int) == initial.subrange(0, j).filter(keep),
            arr@.subrange(i as int, arr@.len() as int) == initial.subrange(j, initial.len() as int),
        decreases arr@.len() - i,
    {
        let ghost before = arr@;
        proof {
            assert forall|k: int| 0 <= k < before.len() - i implies #[trigger] before[i + k] == initial[j + k] by {
                assert(before.subrange(i as int, before.len() as int)[k] == initial.subrange(
                    j,
                    initial.len() as int,
                )[k]);
            }
            assert(before[i as int] == initial[j]) by {
                assert(before.subrange(i as int, before.len() as int)[0] == initial.subrange(
                    j,
                    initial.len() as int,
                )[0]);
            }
            assert(initial.subrange(0, j + 1).drop_last() =~= initial.subrange(0, j));
            assert(initial.subrange(0, j + 1).last() == initial[j]);
            let sub = initial.subrange(0, j + 1);
            reveal(Seq::filter);
            assert(sub.filter(keep) == if keep(sub.last()) {
                sub.drop_last().filter(keep).push(sub.last())
            } else {
                sub.drop_last().filter(keep)
            });
        }
        if arr[i] == *element {
            arr.remove(i);
            proof {
                assert(arr@.subrange(0, i as int) =~= before.subrange(0, i as int));
                assert forall|k: int| 0 <= k < arr@.len() - i implies #[trigger] arr@.subrange(i as int, arr@.len() as int)[k]
                    == initial.subrange(j + 1, initial.len() as int)[k] by {
                    assert(before[i + (k + 1)] == initial[j + (k + 1)]);
                    assert(arr@[i + k] == before[i + (k + 1)]);
                }
                assert(arr@.subrange(i as int, arr@.len() as int) =~= initial.subrange(
                    j + 1,
                    initial.len() as int,
                ));
            }
        } else {
            proof {
                assert(arr@.subrange(0, i + 1) =~= before.subrange(0, i as int).push(before[i as int]));
                assert forall|k: int| 0 <= k < arr@.len() - (i + 1) implies #[trigger] arr@.subrange(i + 1, arr@.len() as int)[k]
                    == initial.subrange(j + 1, initial.len() as int)[k] by {
                    assert(before[i + (k + 1)] == initial[j + (k + 1)]);
                }
                assert(arr@.subrange(i + 1, arr@.len() as int) =~= initial.subrange(
                    j + 1,
                    initial.len() as int,
                ));
            }
            i += 1;
        }
        proof {
            j = j + 1;
        }
    }
    proof {
        assert(arr@.subrange(0, i as int) =~= arr@);
        assert(initial.subrange(0, j) =~= initial);
    }
}

} // verus!
