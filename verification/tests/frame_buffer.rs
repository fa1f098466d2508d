use lib::frame::{Frame, BLANK, HEIGHT, NO_DEPTH, WIDTH};

fn lines(text: &str) -> Vec<String> {
    text.split_terminator('\n').map(|l| l.to_string()).collect()
}

#[test]
fn new_frame_is_blank() {
    let f = Frame::new(3, 2);
    assert_eq!(f.width(), 3);
    assert_eq!(f.height(), 2);
    for y in 0..2 {
        for x in 0..3 {
            assert_eq!(f.glyph_at(x, y), Some(BLANK));
            assert_eq!(f.depth_at(x, y), Some(NO_DEPTH));
        }
    }
    assert_eq!(f.to_text(), "   \n   \n");
}

#[test]
fn screen_prints_as_blank_lines_of_full_width() {
    let f = Frame::screen();
    assert_eq!(f.width(), WIDTH);
    assert_eq!(f.height(), HEIGHT);
    let text = f.to_text();
    assert_eq!(text.chars().count(), HEIGHT * (WIDTH + 1));
    let rows = lines(&text);
    assert_eq!(rows.len(), HEIGHT);
    for row in rows {
        assert_eq!(row, " ".repeat(WIDTH));
    }
}

#[test]
fn empty_frame_prints_as_nothing() {
    assert_eq!(Frame::new(0, 0).to_text(), "");
    assert_eq!(Frame::new(0, 2).to_text(), "\n\n");
    assert_eq!(Frame::new(4, 0).to_text(), "");
}

#[test]
fn cells_off_the_frame_have_no_glyph() {
    let f = Frame::new(3, 2);
    assert_eq!(f.glyph_at(3, 0), None);
    assert_eq!(f.glyph_at(0, 2), None);
    assert_eq!(f.depth_at(3, 1), None);
    assert_eq!(f.depth_at(2, 2), None);
}

#[test]
fn plot_on_empty_cell_draws() {
    let mut f = Frame::new(3, 2);
    assert!(f.plot(1, 1, 50, '*'));
    assert_eq!(f.glyph_at(1, 1), Some('*'));
    assert_eq!(f.depth_at(1, 1), Some(50));
    assert_eq!(f.to_text(), "   \n * \n");
}

#[test]
fn nearer_surface_replaces_farther_one() {
    let mut f = Frame::new(2, 2);
    assert!(f.plot(0, 0, 50, '.'));
    assert!(f.plot(0, 0, 40, '@'));
    assert_eq!(f.glyph_at(0, 0), Some('@'));
    assert_eq!(f.depth_at(0, 0), Some(40));
}

#[test]
fn farther_or_equal_surface_is_hidden() {
    let mut f = Frame::new(2, 2);
    assert!(f.plot(1, 0, 40, '@'));
    assert!(!f.plot(1, 0, 60, '.'));
    assert!(!f.plot(1, 0, 40, '#'));
    assert_eq!(f.glyph_at(1, 0), Some('@'));
    assert_eq!(f.depth_at(1, 0), Some(40));
}

#[test]
fn plot_off_the_frame_changes_nothing() {
    let mut f = Frame::new(3, 2);
    assert!(!f.plot(3, 0, 10, '@'));
    assert!(!f.plot(0, 2, 10, '@'));
    assert!(!f.plot(usize::MAX, usize::MAX, 10, '@'));
    assert_eq!(f.to_text(), "   \n   \n");
}

#[test]
fn plot_without_depth_leaves_cell_open() {
    let mut f = Frame::new(2, 1);
    assert!(f.plot(0, 0, NO_DEPTH, '%'));
    assert_eq!(f.glyph_at(0, 0), Some('%'));
    assert!(f.plot(0, 0, 900, '.'));
    assert_eq!(f.glyph_at(0, 0), Some('.'));
}

#[test]
fn nearest_surface_shows_in_either_order() {
    let mut a = Frame::new(4, 3);
    a.plot(2, 1, 70, '.');
    a.plot(2, 1, 30, '@');
    let mut b = Frame::new(4, 3);
    b.plot(2, 1, 30, '@');
    b.plot(2, 1, 70, '.');
    assert_eq!(a.glyph_at(2, 1), Some('@'));
    assert_eq!(b.glyph_at(2, 1), Some('@'));
    assert_eq!(a.depth_at(2, 1), Some(30));
    assert_eq!(a.to_text(), b.to_text());
}

#[test]
fn plots_on_different_cells_commute() {
    let mut a = Frame::new(3, 3);
    a.plot(0, 0, 5, 'x');
    a.plot(2, 2, 5, 'y');
    let mut b = Frame::new(3, 3);
    b.plot(2, 2, 5, 'y');
    b.plot(0, 0, 5, 'x');
    assert_eq!(a.to_text(), b.to_text());
    assert_eq!(a.to_text(), "x  \n   \n  y\n");
}

#[test]
fn plotting_twice_is_plotting_once() {
    let mut a = Frame::new(3, 1);
    a.plot(1, 0, 8, '#');
    let once = a.to_text();
    assert!(!a.plot(1, 0, 8, '#'));
    assert_eq!(a.to_text(), once);
    assert_eq!(a.depth_at(1, 0), Some(8));
}

#[test]
fn depth_only_comes_nearer() {
    let mut f = Frame::new(2, 2);
    f.plot(1, 1, 20, 'a');
    let offers = [(1, 1, 30, 'b'), (1, 1, 10, 'c'), (1, 1, 15, 'd'), (0, 1, 99, 'e')];
    for (x, y, d, g) in offers {
        let before = f.depth_at(1, 1).unwrap();
        f.plot(x, y, d, g);
        let after = f.depth_at(1, 1).unwrap();
        assert!(after <= before);
    }
    assert_eq!(f.glyph_at(1, 1), Some('c'));
    assert_eq!(f.glyph_at(0, 1), Some('e'));
    assert_eq!(f.glyph_at(0, 0), Some(BLANK));
}

#[test]
fn clear_wipes_every_cell() {
    let mut f = Frame::new(3, 2);
    f.plot(0, 0, 4, '@');
    f.plot(2, 1, 9, '%');
    f.clear();
    assert_eq!(f.width(), 3);
    assert_eq!(f.height(), 2);
    for y in 0..2 {
        for x in 0..3 {
            assert_eq!(f.glyph_at(x, y), Some(BLANK));
            assert_eq!(f.depth_at(x, y), Some(NO_DEPTH));
        }
    }
    assert_eq!(f.to_text(), "   \n   \n");
    assert!(f.plot(0, 0, 100, '.'));
}

#[test]
fn text_puts_each_glyph_at_its_cell() {
    let mut f = Frame::new(4, 3);
    f.plot(0, 0, 1, 'a');
    f.plot(3, 0, 1, 'b');
    f.plot(1, 1, 1, 'c');
    f.plot(2, 2, 1, 'd');
    let text: Vec<char> = f.to_text().chars().collect();
    assert_eq!(text.len(), 3 * 5);
    for y in 0..3 {
        for x in 0..4 {
            assert_eq!(Some(text[y * 5 + x]), f.glyph_at(x, y));
        }
        assert_eq!(text[y * 5 + 4], '\n');
    }
    assert_eq!(f.to_text(), "a  b\n c  \n  d \n");
}

#[test]
fn screen_corner_cells() {
    let mut f = Frame::screen();
    assert!(f.plot(0, 0, 1, '@'));
    assert!(f.plot(WIDTH - 1, HEIGHT - 1, 1, '%'));
    assert!(!f.plot(WIDTH, 0, 1, '#'));
    let rows = lines(&f.to_text());
    assert!(rows[0].starts_with('@'));
    assert!(rows[HEIGHT - 1].ends_with('%'));
}

#[test]
fn run_of_offers_shows_first_nearest_per_cell() {
    let mut f = Frame::new(3, 2);
    f.plot(2, 1, 77, 'z');
    f.clear();
    let offers = [
        (0, 0, 30, 'a'),
        (0, 0, 20, 'b'),
        (0, 0, 20, 'c'),
        (0, 0, 25, 'd'),
        (1, 1, 9, 'e'),
        (1, 1, 9, 'f'),
        (5, 5, 1, 'g'),
    ];
    for (x, y, d, g) in offers {
        f.plot(x, y, d, g);
    }
    assert_eq!(f.glyph_at(0, 0), Some('b'));
    assert_eq!(f.depth_at(0, 0), Some(20));
    assert_eq!(f.glyph_at(1, 1), Some('e'));
    assert_eq!(f.depth_at(1, 1), Some(9));
    assert_eq!(f.glyph_at(2, 1), Some(BLANK));
    assert_eq!(f.depth_at(2, 1), Some(NO_DEPTH));
    assert_eq!(f.to_text(), "b  \n e \n");
}

#[test]
fn marks_appear_exactly_where_depths_are() {
    let mut f = Frame::screen();
    let offers = [(3, 4, 12, '#'), (3, 4, 7, '@'), (100, 20, 5, '%'), (119, 29, 2, '.')];
    for (x, y, d, g) in offers {
        f.plot(x, y, d, g);
    }
    for y in 0..HEIGHT {
        for x in 0..WIDTH {
            let marked = f.glyph_at(x, y) != Some(BLANK);
            let deep = f.depth_at(x, y) != Some(NO_DEPTH);
            assert_eq!(marked, deep);
        }
    }
}
