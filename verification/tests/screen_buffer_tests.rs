use std::cell::RefCell;
use std::rc::Rc;

use maze_gen::draw_api::DrawApi;
use maze_gen::maze::Maze;
use maze_gen::rng::RandomSource;
use maze_gen::screen_buffer::Color;
use maze_gen::screen_buffer::ScreenBuffer;

struct ApiMock {}

impl DrawApi for ApiMock {
    fn draw_apply(&mut self) {}
    fn draw_api(&mut self, _x: usize, _y: usize, _color: Color) {}
    fn draw_item(&mut self, _size: usize, _x: usize, _y: usize, _color: Color) {}
}

/// Records every pixel that `draw` hands out, so tests can inspect the
/// buffer contents from outside.
struct Recorder {
    grid: Rc<RefCell<Vec<Vec<Color>>>>,
    applied: Rc<RefCell<bool>>,
}

impl DrawApi for Recorder {
    fn draw_apply(&mut self) {
        *self.applied.borrow_mut() = true;
    }
    fn draw_api(&mut self, x: usize, y: usize, color: Color) {
        self.grid.borrow_mut()[x][y] = color;
    }
    fn draw_item(&mut self, _size: usize, _x: usize, _y: usize, _color: Color) {}
}

fn recorder(pw: usize, ph: usize) -> (Recorder, Rc<RefCell<Vec<Vec<Color>>>>, Rc<RefCell<bool>>) {
    let grid = Rc::new(RefCell::new(vec![vec![Color::Green; ph]; pw]));
    let applied = Rc::new(RefCell::new(false));
    (
        Recorder { grid: Rc::clone(&grid), applied: Rc::clone(&applied) },
        grid,
        applied,
    )
}

struct LcgSource {
    state: u64,
}

impl RandomSource for LcgSource {
    fn next(&mut self, min: usize, max: usize) -> usize {
        self.state = self
            .state
            .wrapping_mul(6364136223846793005)
            .wrapping_add(1442695040888963407);
        let r = (self.state >> 33) as usize;
        min + r % (max - min)
    }
}

#[test]
fn screen_buffer_can_construct_screen_buffer() {
    let _buf = ScreenBuffer::new(5, 5, 5, ApiMock {});
}

#[test]
fn screen_buffer_can_fill_buffer() {
    let w = 5;
    let h = 5;
    let maze = Maze::new(w, h, LcgSource { state: 17 });
    let mut buf = ScreenBuffer::new(5, w, h, ApiMock {});
    maze.feed_whitespace(&mut buf);
}

#[test]
fn initial_fill_paints_the_grid_lines() {
    let bs = 2;
    let cols = 2;
    let rows = 2;
    let pw = cols * bs + 1;
    let ph = rows * bs + 1;
    let (rec, grid, applied) = recorder(pw, ph);
    let mut buf = ScreenBuffer::new(bs, cols, rows, rec);
    buf.draw();
    assert!(*applied.borrow());
    let g = grid.borrow();
    for x in 0..pw {
        for y in 0..ph {
            let on_line = (y % bs == 0 && y <= rows * bs && x < cols * bs)
                || (x % bs == 0 && x <= cols * bs && y < rows * bs);
            let expected = if on_line { Color::Black } else { Color::White };
            assert_eq!(g[x][y], expected, "pixel ({}, {})", x, y);
        }
    }
}

#[test]
fn remove_wall_opens_exactly_the_shared_border() {
    let bs = 2;
    let cols = 2;
    let rows = 2;
    let pw = cols * bs + 1;
    let ph = rows * bs + 1;
    let (rec, grid, _applied) = recorder(pw, ph);
    let mut buf = ScreenBuffer::new(bs, cols, rows, rec);
    // cells 0 and 1 are row neighbors: their shared border is the vertical
    // run x = 2, y in 0..2
    buf.remove_wall(0, 1);
    buf.draw();
    let g = grid.borrow();
    assert_eq!(g[2][0], Color::White);
    assert_eq!(g[2][1], Color::White);
    // the rest of that vertical grid line is still black
    assert_eq!(g[2][2], Color::Black);
    assert_eq!(g[2][3], Color::Black);
    // an untouched line pixel stays black, an interior pixel stays white
    assert_eq!(g[0][0], Color::Black);
    assert_eq!(g[1][1], Color::White);
}

#[test]
fn remove_wall_between_column_neighbors() {
    let bs = 2;
    let cols = 2;
    let rows = 2;
    let pw = cols * bs + 1;
    let ph = rows * bs + 1;
    let (rec, grid, _applied) = recorder(pw, ph);
    let mut buf = ScreenBuffer::new(bs, cols, rows, rec);
    // cells 1 and 3 are column neighbors: shared border is the horizontal
    // run y = 2, x in 2..4
    buf.remove_wall(1, 3);
    buf.draw();
    let g = grid.borrow();
    assert_eq!(g[2][2], Color::White);
    assert_eq!(g[3][2], Color::White);
    assert_eq!(g[0][2], Color::Black);
    assert_eq!(g[1][2], Color::Black);
}

#[test]
fn color_rgba_encodes_channels() {
    assert_eq!(Color::White.rgba(), [255, 255, 255, 255]);
    assert_eq!(Color::Black.rgba(), [0, 0, 0, 255]);
    assert_eq!(Color::Green.rgba(), [0, 160, 0, 255]);
}
