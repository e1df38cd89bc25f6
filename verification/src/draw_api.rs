use vstd::prelude::*;

use crate::screen_buffer::Color;

verus! {

/// The drawing callback that a renderer implements: the screen buffer hands
/// it single pixels, item sprites, and the final apply step.
pub trait DrawApi {
    fn draw_apply(&mut self);

    fn draw_api(&mut self, x: usize, y: usize, color: Color);

    fn draw_item(&mut self, size: usize, x: usize, y: usize, color: Color);
}

} // verus!
