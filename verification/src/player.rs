use vstd::prelude::*;

use crate::draw_api::DrawApi;
use crate::grid::adjacent;
use crate::grid::lemma_right_in_range;
use crate::maze::Maze;
use crate::rng::RandomSource;
use crate::screen_buffer::Color;
use crate::screen_buffer::ScreenBuffer;
use crate::screen_buffer::cell_interior_px;

verus! {

/// A movement event, decoded from a keyboard key code.
pub enum MoveEventKey {
    ArrowUp,
    ArrowDown,
    ArrowLeft,
    ArrowRight,
    Other,
}

/// The key-code decoding that `From<u32>` performs: the four arrow keys map
/// to their events, everything else to `Other`.
pub open spec fn key_event_of(val: u32) -> MoveEventKey {
    if val == 38 {
        MoveEventKey::ArrowUp
    } else if val == 37 {
        MoveEventKey::ArrowLeft
    } else if val == 39 {
        MoveEventKey::ArrowRight
    } else if val == 40 {
        MoveEventKey::ArrowDown
    } else {
        MoveEventKey::Other
    }
}

impl From<u32> for MoveEventKey {
    fn from(val: u32) -> (r: MoveEventKey) {
        match val {
            38 => MoveEventKey::ArrowUp,
            37 => MoveEventKey::ArrowLeft,
            39 => MoveEventKey::ArrowRight,
            40 => MoveEventKey::ArrowDown,
            _ => MoveEventKey::Other,
        }
    }
}

impl vstd::std_specs::convert::FromSpecImpl<u32> for MoveEventKey {
    open spec fn obeys_from_spec() -> bool {
        true
    }

    open spec fn from_spec(val: u32) -> MoveEventKey {
        key_event_of(val)
    }
}

/// The player, sitting in one cell of a `width` by `height` maze.
pub struct Player {
    loc: usize,
    width: usize,
    height: usize,
}

impl Player {
    pub closed spec fn loc(self) -> usize {
        self.loc
    }

    pub closed spec fn width(self) -> usize {
        self.width
    }

    pub closed spec fn height(self) -> usize {
        self.height
    }

    pub open spec fn well_formed(self) -> bool {
        &&& self.loc() < self.width() * self.height()
        &&& self.width() >= 1
        &&& self.height() >= 1
    }

    /// The cell that a movement event steers toward, under the boundary
    /// guards: an event whose step would leave the grid keeps the player in
    /// place.
    pub open spec fn move_target(self, evt: MoveEventKey) -> int {
        let loc = self.loc() as int;
        let w = self.width() as int;
        let size = self.width() * self.height();
        match evt {
            MoveEventKey::ArrowDown => if loc + w < size {
                loc + w
            } else {
                loc
            },
            MoveEventKey::ArrowUp => if loc > w {
                loc - w
            } else {
                loc
            },
            MoveEventKey::ArrowRight => if loc != size && (loc + 1) % w != 0 {
                loc + 1
            } else {
                loc
            },
            MoveEventKey::ArrowLeft => if loc != 0 && (loc - 1) % w != (w - 1) {
                loc - 1
            } else {
                loc
            },
            MoveEventKey::Other => loc,
        }
    }

    /// A step from the player's cell to `target` is allowed when it goes
    /// somewhere else, the two cells are grid-adjacent, and no wall stands
    /// between them (same connected component of the maze).
    pub open spec fn step_allowed<R: RandomSource>(self, maze: Maze<R>, target: int) -> bool {
        &&& target != self.loc()
        &&& adjacent(self.loc() as int, target, self.width() as int)
        &&& maze.forest().root_of(self.loc() as int) == maze.forest().root_of(target)
    }

    /// Place the player at `loc` and paint its cell interior green.
    pub fn new<D: DrawApi>(loc: usize, width: usize, height: usize, buf: &mut ScreenBuffer<
        D,
    >) -> (r: Player)
        requires
            old(buf).well_formed(),
            loc < width * height,
            old(buf).columns() == width,
            old(buf).rows() == height,
        ensures
            r.loc() == loc,
            r.width() == width,
            r.height() == height,
            r.well_formed(),
            final(buf).well_formed(),
            final(buf).block_size() == old(buf).block_size(),
            final(buf).columns() == old(buf).columns(),
            final(buf).rows() == old(buf).rows(),
            forall|qx: int, qy: int|
                0 <= qx < old(buf).pixel_w() && 0 <= qy < old(buf).pixel_h()
                    ==> #[trigger] final(buf).pixels()[qx][qy] == (if cell_interior_px(
                    old(buf).block_size() as int,
                    old(buf).columns() as int,
                    loc as int,
                    qx,
                    qy,
                ) {
                    Color::Green
                } else {
                    old(buf).pixels()[qx][qy]
                }),
    {
        let pl = Player { loc, width, height };
        buf.draw_player(loc, Color::Green);
        pl
    }

    fn size(&self) -> (r: usize)
        requires
            self.width() * self.height() <= usize::MAX,
        ensures
            r == self.width() * self.height(),
    {
        self.width * self.height
    }

    fn can_move<R: RandomSource>(&self, next_loc: usize, maze: &Maze<R>) -> (r: bool)
        requires
            maze.well_formed(),
            maze.width() == self.width(),
            maze.height() == self.height(),
            self.loc() < self.width() * self.height(),
            next_loc < self.width() * self.height(),
        ensures
            r == self.step_allowed(*maze, next_loc as int),
    {
        maze.has_no_wall(self.loc, next_loc)
    }

    /// Decode the movement event into a target cell under the boundary
    /// guards, and move there when no wall is in the way.  On a move the old
    /// cell's interior is repainted white and the new one green; otherwise
    /// player and buffer are unchanged.
    pub fn on_move<R: RandomSource, D: DrawApi>(
        &mut self,
        move_evt: MoveEventKey,
        maze: &Maze<R>,
        buf: &mut ScreenBuffer<D>,
    )
        requires
            old(self).well_formed(),
            maze.well_formed(),
            maze.width() == old(self).width(),
            maze.height() == old(self).height(),
            old(buf).well_formed(),
            old(buf).columns() == old(self).width(),
            old(buf).rows() == old(self).height(),
        ensures
            final(self).width() == old(self).width(),
            final(self).height() == old(self).height(),
            final(self).well_formed(),
            final(self).loc() as int == (if old(self).step_allowed(
                *maze,
                old(self).move_target(move_evt),
            ) {
                old(self).move_target(move_evt)
            } else {
                old(self).loc() as int
            }),
            final(buf).well_formed(),
            final(buf).block_size() == old(buf).block_size(),
            final(buf).columns() == old(buf).columns(),
            final(buf).rows() == old(buf).rows(),
            forall|qx: int, qy: int|
                0 <= qx < old(buf).pixel_w() && 0 <= qy < old(buf).pixel_h()
                    ==> #[trigger] final(buf).pixels()[qx][qy] == (if old(self).step_allowed(
                    *maze,
                    old(self).move_target(move_evt),
                ) && cell_interior_px(
                    old(buf).block_size() as int,
                    old(buf).columns() as int,
                    old(self).move_target(move_evt),
                    qx,
                    qy,
                ) {
                    Color::Green
                } else if old(self).step_allowed(*maze, old(self).move_target(move_evt))
                    && cell_interior_px(
                    old(buf).block_size() as int,
                    old(buf).columns() as int,
                    old(self).loc() as int,
                    qx,
                    qy,
                ) {
                    Color::White
                } else {
                    old(buf).pixels()[qx][qy]
                }),
    {
        proof {
            assert(self.width <= self.width * self.height && self.height <= self.width
                * self.height) by (nonlinear_arith)
                requires
                    self.width >= 1,
                    self.height >= 1,
            ;
            assert(maze.forest()@.len() == maze.width() * maze.height());
        }
        let next_loc = match move_evt {
            MoveEventKey::ArrowDown if self.loc + self.width < self.size() => self.loc
                + self.width,
            MoveEventKey::ArrowUp if self.loc > self.width => self.loc - self.width,
            MoveEventKey::ArrowRight if self.loc != self.size() && (self.loc + 1) % self.width
                != 0 => {
                proof {
                    lemma_right_in_range(
                        self.loc as int,
                        self.width as int,
                        self.height as int,
                    );
                }
                self.loc + 1
            },
            MoveEventKey::ArrowLeft if self.loc != 0 && (self.loc - 1) % self.width != (self.width
                - 1) => self.loc - 1,
            _ => self.loc,
        };
        if self.loc != next_loc {
            self.move_to_loc(next_loc, maze, buf);
        }
    }

    fn move_to_loc<R: RandomSource, D: DrawApi>(
        &mut self,
        next_loc: usize,
        maze: &Maze<R>,
        buf: &mut ScreenBuffer<D>,
    )
        requires
            old(self).well_formed(),
            maze.well_formed(),
            maze.width() == old(self).width(),
            maze.height() == old(self).height(),
            old(buf).well_formed(),
            old(buf).columns() == old(self).width(),
            old(buf).rows() == old(self).height(),
            next_loc < old(self).width() * old(self).height(),
            next_loc != old(self).loc(),
        ensures
            final(self).width() == old(self).width(),
            final(self).height() == old(self).height(),
            final(self).well_formed(),
            final(self).loc() as int == (if old(self).step_allowed(*maze, next_loc as int) {
                next_loc as int
            } else {
                old(self).loc() as int
            }),
            final(buf).well_formed(),
            final(buf).block_size() == old(buf).block_size(),
            final(buf).columns() == old(buf).columns(),
            final(buf).rows() == old(buf).rows(),
            forall|qx: int, qy: int|
                0 <= qx < old(buf).pixel_w() && 0 <= qy < old(buf).pixel_h()
                    ==> #[trigger] final(buf).pixels()[qx][qy] == (if old(self).step_allowed(
                    *maze,
                    next_loc as int,
                ) && cell_interior_px(
                    old(buf).block_size() as int,
                    old(buf).columns() as int,
                    next_loc as int,
                    qx,
                    qy,
                ) {
                    Color::Green
                } else if old(self).step_allowed(*maze, next_loc as int) && cell_interior_px(
                    old(buf).block_size() as int,
                    old(buf).columns() as int,
                    old(self).loc() as int,
                    qx,
                    qy,
                ) {
                    Color::White
                } else {
                    old(buf).pixels()[qx][qy]
                }),
    {
        if self.can_move(next_loc, maze) {
            buf.draw_player(self.loc, Color::White);
            self.loc = next_loc;
            buf.draw_player(self.loc, Color::Green);
        }
    }
}

} // verus!
