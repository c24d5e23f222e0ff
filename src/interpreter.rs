use crate::types::{
    rotated, toggled, CodelChooser, ColorInfo, Coordinates, Direction, RGB,
};
use vstd::arithmetic::div_mod::{
    lemma_add_mod_noop_right, lemma_mod_add_multiples_vanish, lemma_mod_multiples_vanish,
    lemma_small_mod, lemma_sub_mod_noop_right,
};
use vstd::prelude::*;

verus! {

/// Whether the channel pattern of hue `h` (red, yellow, green, cyan, blue,
/// magenta) lights the red, green and blue channel respectively.
pub open spec fn hue_lights(h: int, channel: int) -> bool {
    if channel == 0 {
        h == 0 || h == 1 || h == 5
    } else if channel == 1 {
        h == 1 || h == 2 || h == 3
    } else {
        h == 3 || h == 4 || h == 5
    }
}

/// Channel value of lightness `l` (light, normal, dark) for a lit or an
/// unlit channel.
pub open spec fn level(l: int, lit: bool) -> u8 {
    if l == 0 {
        if lit { 255 } else { 192 }
    } else if l == 1 {
        if lit { 255 } else { 0 }
    } else {
        if lit { 192 } else { 0 }
    }
}

/// The colour of the table at lightness `l` and hue `h`.
pub open spec fn palette(l: int, h: int) -> RGB {
    RGB(level(l, hue_lights(h, 0)), level(l, hue_lights(h, 1)), level(l, hue_lights(h, 2)))
}

/// `color` is the table entry of hue `h` and lightness `l`.
pub open spec fn is_index(color: RGB, h: int, l: int) -> bool {
    0 <= h < 6 && 0 <= l < 3 && palette(l, h) == color
}

/// `color` is one of the eighteen chromatic colours.
pub open spec fn chromatic(color: RGB) -> bool {
    exists|h: int, l: int| is_index(color, h, l)
}

/// Distinct table positions hold distinct colours.
pub proof fn lemma_index_unique(color: RGB, h1: int, l1: int, h2: int, l2: int)
    requires
        is_index(color, h1, l1),
        is_index(color, h2, l2),
    ensures
        h1 == h2,
        l1 == l2,
{
}

fn channel_level(l: usize, lit: bool) -> (r: u8)
    requires
        l < 3,
    ensures
        r == level(l as int, lit),
{
    if l == 0 {
        if lit { 255 } else { 192 }
    } else if l == 1 {
        if lit { 255 } else { 0 }
    } else {
        if lit { 192 } else { 0 }
    }
}

fn palette_color(l: usize, h: usize) -> (r: RGB)
    requires
        l < 3,
        h < 6,
    ensures
        r == palette(l as int, h as int),
{
    RGB(
        channel_level(l, h == 0 || h == 1 || h == 5),
        channel_level(l, h == 1 || h == 2 || h == 3),
        channel_level(l, h == 3 || h == 4 || h == 5),
    )
}

/// The table position of `color`: `x` is the hue, `y` the lightness; `None`
/// for white, black and every colour outside the table.
pub fn get_color_index(color: RGB) -> (r: Option<Coordinates>)
    ensures
        match r {
            Some(c) => is_index(color, c.x as int, c.y as int),
            None => !chromatic(color),
        },
{
    let mut l: usize = 0;
    while l < 3
        invariant
            l <= 3,
            forall|h: int, k: int| 0 <= k < l ==> !is_index(color, h, k),
        decreases 3 - l,
    {
        let mut h: usize = 0;
        while h < 6
            invariant
                l < 3,
                h <= 6,
                forall|h2: int, k: int| 0 <= k < l ==> !is_index(color, h2, k),
                forall|h2: int| 0 <= h2 < h ==> !is_index(color, h2, l as int),
            decreases 6 - h,
        {
            if palette_color(l, h) == color {
                return Some(Coordinates { x: h as i32, y: l as i32 });
            }
            h += 1;
        }
        l += 1;
    }
    None
}

/// The cyclic hue and lightness differences from `a` to `b` when both are
/// chromatic, and `(0, 0)` otherwise.
pub open spec fn color_diff_holds(a: RGB, b: RGB, r: Coordinates) -> bool {
    &&& (chromatic(a) && chromatic(b)) ==> forall|ha: int, la: int, hb: int, lb: int|
        is_index(a, ha, la) && is_index(b, hb, lb) ==> r.x == (hb - ha) % 6 && r.y == (lb
            - la) % 3
    &&& !(chromatic(a) && chromatic(b)) ==> r == Coordinates { x: 0, y: 0 }
}

/// The hue and lightness shift from `a` to `b`.
pub open spec fn color_diff(a: RGB, b: RGB) -> Coordinates {
    choose|r: Coordinates| color_diff_holds(a, b, r)
}

proof fn lemma_color_diff_unique(a: RGB, b: RGB, r: Coordinates)
    requires
        color_diff_holds(a, b, r),
    ensures
        color_diff(a, b) == r,
{
    let q = color_diff(a, b);
    assert(color_diff_holds(a, b, q));
    if chromatic(a) && chromatic(b) {
        let (ha, la) = choose|h: int, l: int| is_index(a, h, l);
        let (hb, lb) = choose|h: int, l: int| is_index(b, h, l);
        assert(q.x == (hb - ha) % 6 && q.y == (lb - la) % 3);
        assert(r.x == (hb - ha) % 6 && r.y == (lb - la) % 3);
    }
}

/// The hue shift (`x`, in 0..6) and lightness shift (`y`, in 0..3) from
/// `prev_color` to `color`.
pub fn calculate_color_diff(prev_color: RGB, color: RGB) -> (r: Coordinates)
    ensures
        color_diff_holds(prev_color, color, r),
        r == color_diff(prev_color, color),
        0 <= r.x < 6,
        0 <= r.y < 3,
{
    let prev = match get_color_index(prev_color) {
        Some(p) => p,
        None => {
            proof {
                lemma_color_diff_unique(prev_color, color, Coordinates { x: 0, y: 0 });
            }
            return Coordinates { x: 0, y: 0 };
        },
    };
    let current = match get_color_index(color) {
        Some(c) => c,
        None => {
            proof {
                lemma_color_diff_unique(prev_color, color, Coordinates { x: 0, y: 0 });
            }
            return Coordinates { x: 0, y: 0 };
        },
    };
    let dx = current.x - prev.x;
    let dy = current.y - prev.y;
    let x = if dx < 0 { dx + 6 } else { dx };
    let y = if dy < 0 { dy + 3 } else { dy };
    proof {
        assert forall|ha: int, la: int, hb: int, lb: int|
            is_index(prev_color, ha, la) && is_index(color, hb, lb) implies x == (hb - ha) % 6
            && y == (lb - la) % 3 by {
            lemma_index_unique(prev_color, ha, la, prev.x as int, prev.y as int);
            lemma_index_unique(color, hb, lb, current.x as int, current.y as int);
        }
    }
    let r = Coordinates { x, y };
    proof {
        lemma_color_diff_unique(prev_color, color, r);
    }
    r
}


/// What an instruction asks of the world outside the interpreter.
#[derive(Copy, Clone, PartialEq, Eq, Structural, Debug)]
pub enum IoRequest {
    Nothing,
    /// Read a decimal integer and hand it to `in_num`.
    ReadNumber,
    /// Read one byte and hand it to `in_char`.
    ReadChar,
    /// Write this value in decimal.
    WriteNumber(i32),
    /// Write the character with this code point, if it is one.
    WriteChar(i32),
}

/// `x` reduced to a signed 32-bit integer, two's complement.
pub open spec fn wrap32(x: int) -> i32 {
    if x % 0x1_0000_0000 > i32::MAX {
        (x % 0x1_0000_0000 - 0x1_0000_0000) as i32
    } else {
        (x % 0x1_0000_0000) as i32
    }
}

/// Integer division truncating toward zero.
pub open spec fn trunc_div(a: int, b: int) -> int {
    if a == 0 {
        0
    } else if a > 0 && b > 0 {
        a / b
    } else if a < 0 && b < 0 {
        (a * -1) / (b * -1)
    } else if a < 0 {
        ((a * -1) / b) * -1
    } else {
        (a / (b * -1)) * -1
    }
}

/// The top of the stack.
pub open spec fn top(s: Seq<i32>) -> i32 {
    s[s.len() - 1]
}

/// The element below the top.
pub open spec fn second(s: Seq<i32>) -> i32 {
    s[s.len() - 2]
}

/// `s` with its top two elements replaced by `v`.
pub open spec fn replace_two(s: Seq<i32>, v: i32) -> Seq<i32> {
    s.take(s.len() - 2).push(v)
}

pub open spec fn pushed(s: Seq<i32>, size: i32) -> Seq<i32> {
    s.push(size)
}

pub open spec fn popped(s: Seq<i32>) -> Seq<i32> {
    if s.len() == 0 { s } else { s.drop_last() }
}

pub open spec fn added(s: Seq<i32>) -> Seq<i32> {
    if s.len() < 2 { s } else { replace_two(s, wrap32(second(s) + top(s))) }
}

pub open spec fn subtracted(s: Seq<i32>) -> Seq<i32> {
    if s.len() < 2 { s } else { replace_two(s, wrap32(second(s) - top(s))) }
}

pub open spec fn multiplied(s: Seq<i32>) -> Seq<i32> {
    if s.len() < 2 { s } else { replace_two(s, wrap32(second(s) * top(s))) }
}

pub open spec fn divided(s: Seq<i32>) -> Seq<i32> {
    if s.len() < 2 || top(s) == 0 {
        s
    } else {
        replace_two(s, wrap32(trunc_div(second(s) as int, top(s) as int)))
    }
}

/// Euclidean remainder: `%` on `int` is never negative.
pub open spec fn remaindered(s: Seq<i32>) -> Seq<i32> {
    if s.len() < 2 || top(s) == 0 {
        s
    } else {
        replace_two(s, (second(s) % top(s)) as i32)
    }
}

pub open spec fn negated(s: Seq<i32>) -> Seq<i32> {
    if s.len() == 0 {
        s
    } else {
        s.drop_last().push(if top(s) == 0 { 1i32 } else { 0i32 })
    }
}

pub open spec fn compared(s: Seq<i32>) -> Seq<i32> {
    if s.len() < 2 {
        s
    } else {
        replace_two(s, if second(s) > top(s) { 1i32 } else { 0i32 })
    }
}

pub open spec fn duplicated(s: Seq<i32>) -> Seq<i32> {
    if s.len() == 0 { s } else { s.push(top(s)) }
}

/// The direction after a pointer instruction on stack `s`.
pub open spec fn pointed(s: Seq<i32>, dp: Direction) -> Direction {
    if s.len() == 0 { dp } else { rotated(dp, (top(s) % 4) as nat) }
}

/// The chooser after a switch instruction on stack `s`.
pub open spec fn switched(s: Seq<i32>, cc: CodelChooser) -> CodelChooser {
    if s.len() != 0 && top(s) % 2 == 1 { toggled(cc) } else { cc }
}

/// `w` rotated `r` places toward its start: the top moves down.
pub open spec fn rotate_right(w: Seq<i32>, r: int) -> Seq<i32> {
    Seq::new(w.len(), |i: int| w[(i - r) % (w.len() as int)])
}

/// The stack after a roll: the top is the number of rolls, the one below
/// it the depth; a depth that is not positive or exceeds what remains
/// leaves the stack as it is.
pub open spec fn rolled(s: Seq<i32>) -> Seq<i32> {
    if s.len() < 2 {
        s
    } else {
        let rest = s.take(s.len() - 2);
        let depth = second(s) as int;
        if depth <= 0 || depth > rest.len() {
            s
        } else {
            let base = rest.len() - depth;
            rest.take(base) + rotate_right(rest.skip(base), top(s) as int)
        }
    }
}

fn pop_two(stack: &mut Vec<i32>) -> (r: (i32, i32))
    requires
        old(stack)@.len() >= 2,
    ensures
        final(stack)@ == old(stack)@.take(old(stack)@.len() - 2),
        r.0 == second(old(stack)@),
        r.1 == top(old(stack)@),
{
    let t = stack.pop().unwrap();
    let s = stack.pop().unwrap();
    proof {
        assert(stack@ =~= old(stack)@.take(old(stack)@.len() - 2));
    }
    (s, t)
}

/// Does nothing.
pub fn none(size: i32, stack: &mut Vec<i32>, cc: &mut CodelChooser, dp: &mut Direction)
    ensures
        final(stack)@ == old(stack)@,
        *final(cc) == *old(cc),
        *final(dp) == *old(dp),
{
}

/// Pushes the size of the block just left.
pub fn push(size: i32, stack: &mut Vec<i32>, cc: &mut CodelChooser, dp: &mut Direction)
    ensures
        final(stack)@ == pushed(old(stack)@, size),
        *final(cc) == *old(cc),
        *final(dp) == *old(dp),
{
    stack.push(size);
}

/// Discards the top; nothing on an empty stack.
pub fn pop(size: i32, stack: &mut Vec<i32>, cc: &mut CodelChooser, dp: &mut Direction)
    ensures
        final(stack)@ == popped(old(stack)@),
        *final(cc) == *old(cc),
        *final(dp) == *old(dp),
{
    let _ = stack.pop();
}

/// Replaces the top two by their sum, wrapping.
pub fn add(size: i32, stack: &mut Vec<i32>, cc: &mut CodelChooser, dp: &mut Direction)
    ensures
        final(stack)@ == added(old(stack)@),
        *final(cc) == *old(cc),
        *final(dp) == *old(dp),
{
    if stack.len() < 2 {
        return;
    }
    let (s, t) = pop_two(stack);
    stack.push(s.wrapping_add(t));
}

/// Replaces the top two by the second minus the top, wrapping.
pub fn sub(size: i32, stack: &mut Vec<i32>, cc: &mut CodelChooser, dp: &mut Direction)
    ensures
        final(stack)@ == subtracted(old(stack)@),
        *final(cc) == *old(cc),
        *final(dp) == *old(dp),
{
    if stack.len() < 2 {
        return;
    }
    let (s, t) = pop_two(stack);
    stack.push(s.wrapping_sub(t));
}

/// Replaces the top two by their product, wrapping.
pub fn mult(size: i32, stack: &mut Vec<i32>, cc: &mut CodelChooser, dp: &mut Direction)
    ensures
        final(stack)@ == multiplied(old(stack)@),
        *final(cc) == *old(cc),
        *final(dp) == *old(dp),
{
    if stack.len() < 2 {
        return;
    }
    let (s, t) = pop_two(stack);
    stack.push(s.wrapping_mul(t));
}

/// Replaces the top two by the second divided by the top, truncating;
/// nothing when the top is zero.
pub fn div(size: i32, stack: &mut Vec<i32>, cc: &mut CodelChooser, dp: &mut Direction)
    ensures
        final(stack)@ == divided(old(stack)@),
        *final(cc) == *old(cc),
        *final(dp) == *old(dp),
{
    let n = stack.len();
    if n < 2 || stack[n - 1] == 0 {
        return;
    }
    let (s, t) = pop_two(stack);
    let q = match s.checked_div(t) {
        Some(q) => q,
        None => i32::MIN,
    };
    stack.push(q);
}

/// Replaces the top two by the Euclidean remainder of the second by the
/// top; nothing when the top is zero.
pub fn modulo(size: i32, stack: &mut Vec<i32>, cc: &mut CodelChooser, dp: &mut Direction)
    ensures
        final(stack)@ == remaindered(old(stack)@),
        *final(cc) == *old(cc),
        *final(dp) == *old(dp),
{
    let n = stack.len();
    if n < 2 || stack[n - 1] == 0 {
        return;
    }
    let (s, t) = pop_two(stack);
    let m = match s.checked_rem_euclid(t) {
        Some(m) => m,
        None => 0,
    };
    stack.push(m);
}

/// Replaces the top by 1 if it is zero and by 0 otherwise.
pub fn not(size: i32, stack: &mut Vec<i32>, cc: &mut CodelChooser, dp: &mut Direction)
    ensures
        final(stack)@ == negated(old(stack)@),
        *final(cc) == *old(cc),
        *final(dp) == *old(dp),
{
    let top = match stack.pop() {
        Some(t) => t,
        None => return,
    };
    if top != 0 {
        stack.push(0);
    } else {
        stack.push(1);
    }
}

/// Replaces the top two by 1 if the second is greater than the top, by 0
/// otherwise.
pub fn greater(size: i32, stack: &mut Vec<i32>, cc: &mut CodelChooser, dp: &mut Direction)
    ensures
        final(stack)@ == compared(old(stack)@),
        *final(cc) == *old(cc),
        *final(dp) == *old(dp),
{
    if stack.len() < 2 {
        return;
    }
    let (s, t) = pop_two(stack);
    if s > t {
        stack.push(1);
    } else {
        stack.push(0);
    }
}

/// Pops the top and turns the direction pointer clockwise that many
/// times, counterclockwise for a negative count.
pub fn pointer(size: i32, stack: &mut Vec<i32>, cc: &mut CodelChooser, dp: &mut Direction)
    ensures
        final(stack)@ == popped(old(stack)@),
        *final(dp) == pointed(old(stack)@, *old(dp)),
        *final(cc) == *old(cc),
{
    let ghost s0 = stack@;
    let ghost d0 = *dp;
    let top = match stack.pop() {
        Some(t) => t,
        None => return,
    };
    let turns = match top.checked_rem_euclid(4) {
        Some(m) => m,
        None => 0,
    };
    let mut i: i32 = 0;
    while i < turns
        invariant
            0 <= i <= turns,
            turns == top % 4,
            *dp == rotated(d0, i as nat),
        decreases turns - i,
    {
        *dp = dp.next();
        i += 1;
    }
}

/// Pops the top and toggles the codel chooser that many times.
pub fn switch(size: i32, stack: &mut Vec<i32>, cc: &mut CodelChooser, dp: &mut Direction)
    ensures
        final(stack)@ == popped(old(stack)@),
        *final(cc) == switched(old(stack)@, *old(cc)),
        *final(dp) == *old(dp),
{
    let top = match stack.pop() {
        Some(t) => t,
        None => return,
    };
    if top.checked_rem_euclid(2) == Some(1i32) {
        *cc = cc.toggle();
    }
}

/// Pushes a copy of the top.
pub fn dup(size: i32, stack: &mut Vec<i32>, cc: &mut CodelChooser, dp: &mut Direction)
    ensures
        final(stack)@ == duplicated(old(stack)@),
        *final(cc) == *old(cc),
        *final(dp) == *old(dp),
{
    let n = stack.len();
    if n == 0 {
        return;
    }
    let top = stack[n - 1];
    stack.push(top);
}


/// Pops the number of rolls and the depth, then rotates the top `depth`
/// elements that remain by that many places: a positive count moves the
/// top downward, a negative one upward. A depth that is not positive or
/// exceeds what remains leaves the stack as it is.
pub fn roll(size: i32, stack: &mut Vec<i32>, cc: &mut CodelChooser, dp: &mut Direction)
    ensures
        final(stack)@ == rolled(old(stack)@),
        *final(cc) == *old(cc),
        *final(dp) == *old(dp),
{
    let n = stack.len();
    if n < 2 {
        return;
    }
    let rolls = stack[n - 1];
    let depth = stack[n - 2];
    if depth <= 0 || depth as usize > n - 2 {
        return;
    }
    let d = depth as usize;
    let base = n - 2 - d;
    let r = match rolls.checked_rem_euclid(depth) {
        Some(m) => m as usize,
        None => 0,
    };
    let ghost s0 = stack@;
    let ghost w = s0.take(n - 2).skip(base as int);
    let mut result: Vec<i32> = Vec::new();
    let mut i: usize = 0;
    while i < base
        invariant
            i <= base,
            base + d + 2 == n,
            stack@ == s0,
            s0.len() == n,
            result@ == s0.take(i as int),
        decreases base - i,
    {
        result.push(stack[i]);
        proof {
            assert(result@ =~= s0.take(i + 1));
        }
        i += 1;
    }
    let mut j: usize = 0;
    while j < d
        invariant
            j <= d,
            base + d + 2 == n,
            r == rolls % depth,
            r < d,
            d as int == depth as int,
            stack@ == s0,
            s0.len() == n,
            w == s0.take(n - 2).skip(base as int),
            result@ == s0.take(base as int) + rotate_right(w, rolls as int).take(j as int),
        decreases d - j,
    {
        let k = if j >= r { j - r } else { d - (r - j) };
        proof {
            let dd = d as int;
            lemma_mod_add_multiples_vanish(j - r, dd);
            lemma_sub_mod_noop_right(j as int, rolls as int, dd);
            lemma_small_mod(k as nat, d as nat);
            if j >= r {
                assert((j - r) % dd == k as int);
            } else {
                assert((dd + (j - r)) % dd == k as int);
            }
            assert((j - ((rolls as int) % dd)) % dd == (j - rolls) % dd);
            assert(k as int == (j - rolls) % dd);
        }
        result.push(stack[base + k]);
        proof {
            assert(result@ =~= s0.take(base as int) + rotate_right(w, rolls as int).take(j + 1));
        }
        j += 1;
    }
    proof {
        assert(rotate_right(w, rolls as int).take(d as int) =~= rotate_right(w, rolls as int));
        assert(s0.take(n - 2).take(base as int) =~= s0.take(base as int));
    }
    *stack = result;
}

/// Pushes a number that was read, if one was.
pub fn in_num(stack: &mut Vec<i32>, input: Option<i32>)
    ensures
        final(stack)@ == match input {
            Some(v) => old(stack)@.push(v),
            None => old(stack)@,
        },
{
    if let Some(v) = input {
        stack.push(v);
    }
}

/// Pushes the value of a byte that was read, if one was.
pub fn in_char(stack: &mut Vec<i32>, input: Option<u8>)
    ensures
        final(stack)@ == match input {
            Some(b) => old(stack)@.push(b as i32),
            None => old(stack)@,
        },
{
    if let Some(b) = input {
        stack.push(b as i32);
    }
}

/// Pops the top, which is to be written as a decimal number.
pub fn out_num(stack: &mut Vec<i32>) -> (r: Option<i32>)
    ensures
        final(stack)@ == popped(old(stack)@),
        r == if old(stack)@.len() == 0 { None } else { Some(top(old(stack)@)) },
{
    stack.pop()
}

/// Pops the top, which is to be written as the character of that code
/// point.
pub fn out_char(stack: &mut Vec<i32>) -> (r: Option<i32>)
    ensures
        final(stack)@ == popped(old(stack)@),
        r == if old(stack)@.len() == 0 { None } else { Some(top(old(stack)@)) },
{
    stack.pop()
}

/// The effect of the instruction at hue shift `hue` and lightness shift
/// `light`, with `size` the size of the block left, on the stack, the
/// direction pointer and the codel chooser, and what it asks of the world.
pub open spec fn instruction(
    hue: int,
    light: int,
    size: i32,
    s: Seq<i32>,
    dp: Direction,
    cc: CodelChooser,
) -> (Seq<i32>, Direction, CodelChooser, IoRequest) {
    let written = if s.len() == 0 { None::<i32> } else { Some(top(s)) };
    if hue == 0 && light == 1 {
        (pushed(s, size), dp, cc, IoRequest::Nothing)
    } else if hue == 0 && light == 2 {
        (popped(s), dp, cc, IoRequest::Nothing)
    } else if hue == 1 && light == 0 {
        (added(s), dp, cc, IoRequest::Nothing)
    } else if hue == 1 && light == 1 {
        (subtracted(s), dp, cc, IoRequest::Nothing)
    } else if hue == 1 && light == 2 {
        (multiplied(s), dp, cc, IoRequest::Nothing)
    } else if hue == 2 && light == 0 {
        (divided(s), dp, cc, IoRequest::Nothing)
    } else if hue == 2 && light == 1 {
        (remaindered(s), dp, cc, IoRequest::Nothing)
    } else if hue == 2 && light == 2 {
        (negated(s), dp, cc, IoRequest::Nothing)
    } else if hue == 3 && light == 0 {
        (compared(s), dp, cc, IoRequest::Nothing)
    } else if hue == 3 && light == 1 {
        (popped(s), pointed(s, dp), cc, IoRequest::Nothing)
    } else if hue == 3 && light == 2 {
        (popped(s), dp, switched(s, cc), IoRequest::Nothing)
    } else if hue == 4 && light == 0 {
        (duplicated(s), dp, cc, IoRequest::Nothing)
    } else if hue == 4 && light == 1 {
        (rolled(s), dp, cc, IoRequest::Nothing)
    } else if hue == 4 && light == 2 {
        (s, dp, cc, IoRequest::ReadNumber)
    } else if hue == 5 && light == 0 {
        (s, dp, cc, IoRequest::ReadChar)
    } else if hue == 5 && light == 1 {
        (
            popped(s),
            dp,
            cc,
            match written {
                Some(v) => IoRequest::WriteNumber(v),
                None => IoRequest::Nothing,
            },
        )
    } else if hue == 5 && light == 2 {
        (
            popped(s),
            dp,
            cc,
            match written {
                Some(v) => IoRequest::WriteChar(v),
                None => IoRequest::Nothing,
            },
        )
    } else {
        (s, dp, cc, IoRequest::Nothing)
    }
}

/// Executes the instruction of the colour change from `prev` to `current`.
/// Reads are left to the caller, who hands the value to `in_num` or
/// `in_char`; writes are returned with the value to write.
pub fn execute(
    stack: &mut Vec<i32>,
    dp: &mut Direction,
    cc: &mut CodelChooser,
    prev: ColorInfo,
    current: &ColorInfo,
) -> (r: IoRequest)
    ensures
        (final(stack)@, *final(dp), *final(cc), r) == instruction(
            color_diff(prev.color, current.color).x as int,
            color_diff(prev.color, current.color).y as int,
            prev.size,
            old(stack)@,
            *old(dp),
            *old(cc),
        ),
{
    let diff = calculate_color_diff(prev.color, current.color);
    let size = prev.size;
    let h = diff.x;
    let l = diff.y;
    let mut request = IoRequest::Nothing;
    if h == 0 && l == 1 {
        push(size, stack, cc, dp);
    } else if h == 0 && l == 2 {
        pop(size, stack, cc, dp);
    } else if h == 1 && l == 0 {
        crate::interpreter::add(size, stack, cc, dp);
    } else if h == 1 && l == 1 {
        crate::interpreter::sub(size, stack, cc, dp);
    } else if h == 1 && l == 2 {
        mult(size, stack, cc, dp);
    } else if h == 2 && l == 0 {
        div(size, stack, cc, dp);
    } else if h == 2 && l == 1 {
        modulo(size, stack, cc, dp);
    } else if h == 2 && l == 2 {
        not(size, stack, cc, dp);
    } else if h == 3 && l == 0 {
        greater(size, stack, cc, dp);
    } else if h == 3 && l == 1 {
        pointer(size, stack, cc, dp);
    } else if h == 3 && l == 2 {
        switch(size, stack, cc, dp);
    } else if h == 4 && l == 0 {
        dup(size, stack, cc, dp);
    } else if h == 4 && l == 1 {
        roll(size, stack, cc, dp);
    } else if h == 4 && l == 2 {
        request = IoRequest::ReadNumber;
    } else if h == 5 && l == 0 {
        request = IoRequest::ReadChar;
    } else if h == 5 && l == 1 {
        request = match out_num(stack) {
            Some(v) => IoRequest::WriteNumber(v),
            None => IoRequest::Nothing,
        };
    } else if h == 5 && l == 2 {
        request = match out_char(stack) {
            Some(v) => IoRequest::WriteChar(v),
            None => IoRequest::Nothing,
        };
    } else {
        none(size, stack, cc, dp);
    }
    request
}

/// A roll of depth zero leaves the stack unchanged.
pub proof fn lemma_roll_zero_depth(s: Seq<i32>, k: i32)
    ensures
        rolled(s.push(0).push(k)) == s.push(0).push(k),
{
    let t = s.push(0).push(k);
    assert(second(t) == 0);
}

/// The stack after `n` rolls, each of depth `depth` and count `k`, pushed
/// onto `s` in turn.
pub open spec fn roll_repeated(s: Seq<i32>, depth: i32, k: i32, n: nat) -> Seq<i32>
    decreases n,
{
    if n == 0 {
        s
    } else {
        rolled(roll_repeated(s, depth, k, (n - 1) as nat).push(depth).push(k))
    }
}

proof fn lemma_roll_repeated_window(s: Seq<i32>, depth: i32, k: i32, n: nat)
    requires
        0 < depth <= s.len(),
    ensures
        roll_repeated(s, depth, k, n).len() == s.len(),
        forall|i: int|
            0 <= i < s.len() - depth ==> #[trigger] roll_repeated(s, depth, k, n)[i] == s[i],
        forall|i: int|
            0 <= i < depth ==> #[trigger] roll_repeated(s, depth, k, n)[s.len() - depth + i]
                == s[s.len() - depth + (i - n * k) % (depth as int)],
    decreases n,
{
    let d = depth as int;
    let base = s.len() - d;
    if n == 0 {
        assert forall|i: int| 0 <= i < d implies #[trigger] roll_repeated(s, depth, k, n)[base + i] == s[base
            + (i - n * k) % d] by {
            lemma_small_mod(i as nat, d as nat);
        }
    } else {
        let m = (n - 1) as nat;
        lemma_roll_repeated_window(s, depth, k, m);
        let t = roll_repeated(s, depth, k, m);
        let u = t.push(depth).push(k);
        assert(u.take(u.len() - 2) =~= t);
        assert(second(u) == depth);
        assert(top(u) == k);
        assert forall|i: int| 0 <= i < d implies #[trigger] roll_repeated(s, depth, k, n)[base + i] == s[base
            + (i - n * k) % d] by {
            let j = (i - k) % d;
            assert(roll_repeated(s, depth, k, n)[base + i] == t[base + j]);
            assert(t[base + j] == s[base + (j - m * k) % d]);
            lemma_add_mod_noop_right(-(m * k), i - k, d);
            assert((-(m * k) + (i - k)) == i - n * k) by (nonlinear_arith)
                requires
                    m + 1 == n,
            ;
        }
    }
}

/// Rolling the top `depth` elements by the same count `depth` times in a
/// row brings the stack back to where it was.
pub proof fn lemma_roll_full_cycle(s: Seq<i32>, depth: i32, k: i32)
    requires
        0 < depth <= s.len(),
    ensures
        roll_repeated(s, depth, k, depth as nat) == s,
{
    let d = depth as int;
    let base = s.len() - d;
    lemma_roll_repeated_window(s, depth, k, depth as nat);
    let t = roll_repeated(s, depth, k, depth as nat);
    assert forall|i: int| 0 <= i < s.len() implies t[i] == s[i] by {
        if i >= base {
            let j = i - base;
            let kk = k as int;
            let nn = depth as nat;
            lemma_mod_multiples_vanish(-kk, j, d);
            assert(d * (-kk) + j == j - nn * kk) by (nonlinear_arith)
                requires
                    d == nn,
            ;
            lemma_small_mod(j as nat, d as nat);
            assert(t[base + j] == s[base + j]);
        }
    }
    assert(t =~= s);
}

/// Division and remainder by zero leave the stack unchanged.
pub proof fn lemma_divide_by_zero_is_void(s: Seq<i32>)
    ensures
        divided(s.push(0)) == s.push(0),
        remaindered(s.push(0)) == s.push(0),
{
}

/// A roll deeper than the rest of the stack leaves the stack unchanged.
pub proof fn lemma_roll_too_deep(s: Seq<i32>, depth: i32, k: i32)
    requires
        depth > s.len(),
    ensures
        rolled(s.push(depth).push(k)) == s.push(depth).push(k),
{
    let t = s.push(depth).push(k);
    assert(t.take(t.len() - 2) =~= s);
    assert(second(t) == depth);
}

} // verus!
