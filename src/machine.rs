use crate::interpreter::{color_diff, execute, instruction, IoRequest};
use crate::navigation::{
    advance, block_set, get_block, get_size, in_image, next_color, pixel, size_of, well_formed,
};
use crate::types::{CodelChooser, ColorInfo, Coordinates, Direction, RGB};
use vstd::prelude::*;

verus! {

/// The whole state of a running program: the navigation state, the stack,
/// and the colour and size of the current block.
pub struct Machine {
    pub pos: Coordinates,
    pub dp: Direction,
    pub cc: CodelChooser,
    pub stack: Vec<i32>,
    pub current: ColorInfo,
}

impl Machine {
    /// The initial state: top-left codel, direction right, chooser left,
    /// empty stack.
    pub fn new(rgb_img: &Vec<Vec<RGB>>, codel_size: i32) -> (r: Machine)
        requires
            well_formed(rgb_img@),
            codel_size > 0,
        ensures
            r.pos == (Coordinates { x: 0, y: 0 }),
            r.dp == Direction::RIGHT,
            r.cc == CodelChooser::LEFT,
            r.stack@ == Seq::<i32>::empty(),
            r.current.color == pixel(rgb_img@, r.pos),
            r.current.size == size_of(
                block_set(rgb_img@, codel_size as int, r.pos, Direction::RIGHT).len(),
            ),
    {
        let pos = Coordinates { x: 0, y: 0 };
        let block = get_block(rgb_img, pos, codel_size, Direction::RIGHT);
        proof {
            block@.unique_seq_to_set();
        }
        Machine {
            pos,
            dp: Direction::RIGHT,
            cc: CodelChooser::LEFT,
            stack: Vec::new(),
            current: ColorInfo { color: rgb_img[0][0], size: get_size(&block) },
        }
    }

    /// One turn of the interpreter: move to the next block and execute the
    /// instruction of the colour change, unless the way led through white. `None` when no exit is left, which
    /// ends the program; otherwise what the instruction asks of the world.
    pub fn step(&mut self, rgb_img: &Vec<Vec<RGB>>, codel_size: i32) -> (r: Option<IoRequest>)
        requires
            well_formed(rgb_img@),
            codel_size > 0,
            in_image(rgb_img@, old(self).pos),
        ensures
            in_image(rgb_img@, final(self).pos),
            advance(rgb_img@, codel_size as int, old(self).pos, old(self).dp, old(self).cc) is None
                ==> r is None,
            advance(rgb_img@, codel_size as int, old(self).pos, old(self).dp, old(self).cc) is None
                ==> final(self).pos == old(self).pos && final(self).dp == old(self).dp
                && final(self).cc == old(self).cc,
            advance(rgb_img@, codel_size as int, old(self).pos, old(self).dp, old(self).cc) is None
                ==> final(self).stack@ == old(self).stack@
                && final(self).current == old(self).current,
            advance(rgb_img@, codel_size as int, old(self).pos, old(self).dp, old(self).cc) matches Some(
                next,
            ) ==> {
                &&& r is Some
                &&& final(self).pos == next.0
                &&& final(self).current.color == pixel(rgb_img@, next.0)
                &&& final(self).current.size == size_of(
                    block_set(rgb_img@, codel_size as int, next.0, next.1).len(),
                )
                &&& next.3 ==> final(self).stack@ == old(self).stack@ && final(self).dp == next.1
                    && final(self).cc == next.2 && r == Some(IoRequest::Nothing)
                &&& !next.3 ==> (final(self).stack@, final(self).dp, final(self).cc, r->Some_0) == instruction(
                    color_diff(old(self).current.color, pixel(rgb_img@, next.0)).x as int,
                    color_diff(old(self).current.color, pixel(rgb_img@, next.0)).y as int,
                    old(self).current.size,
                    old(self).stack@,
                    next.1,
                    next.2,
                )
            },
    {
        let found = next_color(rgb_img, &mut self.pos, codel_size, &mut self.dp, &mut self.cc);
        match found {
            None => None,
            Some((info, slid)) => {
                let prev = self.current;
                self.current = info;
                if slid {
                    return Some(IoRequest::Nothing);
                }
                let request = execute(&mut self.stack, &mut self.dp, &mut self.cc, prev, &info);
                Some(request)
            },
        }
    }
}

} // verus!
