use vstd::prelude::*;

use crate::draw_api::DrawApi;
use crate::screen_buffer::Color;
use crate::screen_buffer::ScreenBuffer;
use crate::screen_buffer::cell_interior_px;

verus! {

/// A collectible apple sitting in one maze cell.
pub struct Apple {
    loc: usize,
}

/// The maze exit, sitting in one maze cell.
pub struct Exit {
    loc: usize,
}

/// Anything that occupies a single maze cell.
pub trait Locatable {
    /// The cell the thing occupies.
    spec fn loc(&self) -> usize;

    fn get_loc(&self) -> (r: usize)
        ensures
            r == self.loc(),
    ;
}

impl Exit {
    /// Place the exit at `loc` and paint its cell interior blue.
    pub fn new<D: DrawApi>(loc: usize, buf: &mut ScreenBuffer<D>) -> (r: Exit)
        requires
            old(buf).well_formed(),
            loc < old(buf).columns() * old(buf).rows(),
        ensures
            r.loc() == loc,
            final(buf).well_formed(),
            final(buf).block_size() == old(buf).block_size(),
            final(buf).columns() == old(buf).columns(),
            final(buf).rows() == old(buf).rows(),
            forall|qx: int, qy: int|
                0 <= qx < old(buf).pixel_w() && 0 <= qy < old(buf).pixel_h()
                    ==> #[trigger] final(buf).pixels()[qx][qy] == (if cell_interior_px(
                    old(buf).block_size() as int,
                    old(buf).columns() as int,
                    loc as int,
                    qx,
                    qy,
                ) {
                    Color::Blue
                } else {
                    old(buf).pixels()[qx][qy]
                }),
    {
        let item = Exit { loc };
        buf.draw_item(loc, Color::Blue);
        item
    }
}

impl Locatable for Exit {
    closed spec fn loc(&self) -> usize {
        self.loc
    }

    fn get_loc(&self) -> (r: usize) {
        self.loc
    }
}

impl Apple {
    /// Place an apple at `loc` and paint its cell interior orange.
    pub fn new<D: DrawApi>(loc: usize, buf: &mut ScreenBuffer<D>) -> (r: Apple)
        requires
            old(buf).well_formed(),
            loc < old(buf).columns() * old(buf).rows(),
        ensures
            r.loc() == loc,
            final(buf).well_formed(),
            final(buf).block_size() == old(buf).block_size(),
            final(buf).columns() == old(buf).columns(),
            final(buf).rows() == old(buf).rows(),
            forall|qx: int, qy: int|
                0 <= qx < old(buf).pixel_w() && 0 <= qy < old(buf).pixel_h()
                    ==> #[trigger] final(buf).pixels()[qx][qy] == (if cell_interior_px(
                    old(buf).block_size() as int,
                    old(buf).columns() as int,
                    loc as int,
                    qx,
                    qy,
                ) {
                    Color::Orange
                } else {
                    old(buf).pixels()[qx][qy]
                }),
    {
        let item = Apple { loc };
        buf.draw_item(loc, Color::Orange);
        item
    }
}

impl Locatable for Apple {
    closed spec fn loc(&self) -> usize {
        self.loc
    }

    fn get_loc(&self) -> (r: usize) {
        self.loc
    }
}

} // verus!
