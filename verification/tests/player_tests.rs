use std::cell::RefCell;
use std::rc::Rc;

use maze_gen::draw_api::DrawApi;
use maze_gen::items::Apple;
use maze_gen::items::Exit;
use maze_gen::items::Locatable;
use maze_gen::maze::Maze;
use maze_gen::player::MoveEventKey;
use maze_gen::player::Player;
use maze_gen::rng::MinSource;
use maze_gen::screen_buffer::Color;
use maze_gen::screen_buffer::ScreenBuffer;

struct Recorder {
    grid: Rc<RefCell<Vec<Vec<Color>>>>,
}

impl DrawApi for Recorder {
    fn draw_apply(&mut self) {}
    fn draw_api(&mut self, x: usize, y: usize, color: Color) {
        self.grid.borrow_mut()[x][y] = color;
    }
    fn draw_item(&mut self, _size: usize, _x: usize, _y: usize, _color: Color) {}
}

fn recorder(pw: usize, ph: usize) -> (Recorder, Rc<RefCell<Vec<Vec<Color>>>>) {
    let grid = Rc::new(RefCell::new(vec![vec![Color::Green; ph]; pw]));
    (Recorder { grid: Rc::clone(&grid) }, grid)
}

/// The single interior pixel of a cell when the block size is 2.
fn interior_px(cols: usize, bs: usize, loc: usize) -> (usize, usize) {
    let cc = loc % cols;
    let rr = loc / cols;
    (cc * bs + 1, rr * bs + 1)
}

#[test]
fn key_codes_decode_to_move_events() {
    assert!(matches!(MoveEventKey::from(38u32), MoveEventKey::ArrowUp));
    assert!(matches!(MoveEventKey::from(37u32), MoveEventKey::ArrowLeft));
    assert!(matches!(MoveEventKey::from(39u32), MoveEventKey::ArrowRight));
    assert!(matches!(MoveEventKey::from(40u32), MoveEventKey::ArrowDown));
    assert!(matches!(MoveEventKey::from(13u32), MoveEventKey::Other));
}

#[test]
fn player_moves_through_open_walls() {
    let w = 2;
    let h = 2;
    let bs = 2;
    // a 2x2 maze is fully connected after generation, so every adjacent
    // step is legal
    let maze = Maze::new(w, h, MinSource {});
    let (rec, grid) = recorder(w * bs + 1, h * bs + 1);
    let mut buf = ScreenBuffer::new(bs, w, h, rec);
    let mut player = Player::new(0, w, h, &mut buf);
    player.on_move(MoveEventKey::ArrowRight, &maze, &mut buf);
    buf.draw();
    {
        let g = grid.borrow();
        let (x0, y0) = interior_px(w, bs, 0);
        let (x1, y1) = interior_px(w, bs, 1);
        assert_eq!(g[x1][y1], Color::Green, "player should now sit in cell 1");
        assert_eq!(g[x0][y0], Color::White, "cell 0 should have been vacated");
    }
    player.on_move(MoveEventKey::ArrowDown, &maze, &mut buf);
    buf.draw();
    {
        let g = grid.borrow();
        let (x1, y1) = interior_px(w, bs, 1);
        let (x3, y3) = interior_px(w, bs, 3);
        assert_eq!(g[x3][y3], Color::Green, "player should now sit in cell 3");
        assert_eq!(g[x1][y1], Color::White, "cell 1 should have been vacated");
    }
}

#[test]
fn player_is_stopped_at_the_boundary() {
    let w = 2;
    let h = 2;
    let bs = 2;
    let maze = Maze::new(w, h, MinSource {});
    let (rec, grid) = recorder(w * bs + 1, h * bs + 1);
    let mut buf = ScreenBuffer::new(bs, w, h, rec);
    let mut player = Player::new(0, w, h, &mut buf);
    // cell 0 is in the top-left corner: up and left are out of the grid
    player.on_move(MoveEventKey::ArrowUp, &maze, &mut buf);
    player.on_move(MoveEventKey::ArrowLeft, &maze, &mut buf);
    player.on_move(MoveEventKey::Other, &maze, &mut buf);
    buf.draw();
    let g = grid.borrow();
    let (x0, y0) = interior_px(w, bs, 0);
    assert_eq!(g[x0][y0], Color::Green, "player should still sit in cell 0");
}

#[test]
fn items_are_placed_and_painted() {
    let w = 2;
    let h = 2;
    let bs = 2;
    let (rec, grid) = recorder(w * bs + 1, h * bs + 1);
    let mut buf = ScreenBuffer::new(bs, w, h, rec);
    let exit = Exit::new(3, &mut buf);
    let apple = Apple::new(2, &mut buf);
    assert_eq!(exit.get_loc(), 3);
    assert_eq!(apple.get_loc(), 2);
    buf.draw();
    let g = grid.borrow();
    let (ex, ey) = interior_px(w, bs, 3);
    let (ax, ay) = interior_px(w, bs, 2);
    assert_eq!(g[ex][ey], Color::Blue);
    assert_eq!(g[ax][ay], Color::Orange);
}
