use libguttt::{ColorEnum, TerminalCanvas};

fn row(c: &TerminalCanvas, y: usize) -> String {
    let (w, _) = c.get_size();
    (0..w).map(|x| c.get(x, y).glyph.clone()).collect()
}

#[test]
fn new_canvas_is_blank() {
    let c = TerminalCanvas::new(4, 2, ColorEnum::Green, ColorEnum::Reset);
    assert_eq!(c.get_size(), (4, 2));
    assert_eq!(row(&c, 0), "    ");
    assert_eq!(row(&c, 1), "    ");
    assert_eq!(c.get(3, 1).fg, ColorEnum::Green);
    assert_eq!(c.get(3, 1).bg, ColorEnum::Reset);
    assert_eq!(c.get_color(), (ColorEnum::Green, ColorEnum::Reset));
}

#[test]
fn set_draws_one_grapheme_per_cell() {
    let mut c = TerminalCanvas::new(5, 2, ColorEnum::Reset, ColorEnum::Reset);
    c.set_fg(ColorEnum::Red);
    c.set(1, 0, "ab\u{65}\u{301}");
    assert_eq!(row(&c, 0), " abe\u{301} ");
    assert_eq!(c.get(3, 0).glyph, "e\u{301}");
    assert_eq!(c.get(1, 0).fg, ColorEnum::Red);
    assert_eq!(c.get(0, 0).fg, ColorEnum::Reset);
    assert_eq!(c.get_fg(), ColorEnum::Red);
    assert_eq!(c.get_bg(), ColorEnum::Reset);
}

#[test]
fn set_follows_returns_and_line_feeds() {
    let mut c = TerminalCanvas::new(3, 3, ColorEnum::Reset, ColorEnum::Reset);
    c.set(0, 0, "ab\r\ncd\nx");
    assert_eq!(row(&c, 0), "ab ");
    assert_eq!(row(&c, 1), "cd ");
    assert_eq!(row(&c, 2), "  x");
}

#[test]
fn set_drops_what_falls_outside() {
    let mut c = TerminalCanvas::new(3, 2, ColorEnum::Reset, ColorEnum::Reset);
    c.set(-1, 0, "abcd");
    assert_eq!(row(&c, 0), "bcd");
    c.set(1, 1, "xyz");
    assert_eq!(row(&c, 1), " xy");
    c.set(3, 0, "q");
    assert_eq!(row(&c, 0), "bcd");
}

#[test]
fn clip_shifts_and_bounds_drawing() {
    let mut c = TerminalCanvas::new(4, 3, ColorEnum::Reset, ColorEnum::Reset);
    c.clip(1, 1, 2, 2);
    assert_eq!(c.get_size(), (2, 2));
    c.set(0, 0, "abc\r\nde");
    c.unclip();
    assert_eq!(c.get_size(), (4, 3));
    assert_eq!(row(&c, 0), "    ");
    assert_eq!(row(&c, 1), " ab ");
    assert_eq!(row(&c, 2), " de ");
    assert_eq!(c.clip_depth(), 0);
}

#[test]
fn set_canv_copies_cells_with_their_colours() {
    let mut src = TerminalCanvas::new(2, 1, ColorEnum::Blue, ColorEnum::Black);
    src.set(0, 0, "hi");
    let mut dst = TerminalCanvas::new(4, 2, ColorEnum::Reset, ColorEnum::Reset);
    dst.set_canv(1, 1, &src);
    assert_eq!(row(&dst, 1), " hi ");
    assert_eq!(dst.get(1, 1).fg, ColorEnum::Blue);
    assert_eq!(dst.get(2, 1).bg, ColorEnum::Black);
    assert_eq!(dst.get_color(), (ColorEnum::Reset, ColorEnum::Reset));
    dst.set_color(ColorEnum::Yellow, ColorEnum::White);
    assert_eq!(dst.get_color(), (ColorEnum::Yellow, ColorEnum::White));
    dst.set_bg(ColorEnum::Cyan);
    dst.set(0, 0, "z");
    assert_eq!(dst.get(0, 0).bg, ColorEnum::Cyan);
    assert_eq!(dst.get(0, 0).fg, ColorEnum::Yellow);
}
