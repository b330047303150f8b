use unicode_segmentation::UnicodeSegmentation;
use vstd::prelude::*;
use vstd::string::StringExecFns;

verus! {

/// The colours a grapheme can be drawn in.
#[derive(Clone, Copy, Debug, PartialEq, Eq, Structural)]
pub enum ColorEnum {
    Reset,
    Black,
    Blue,
    Cyan,
    Green,
    Magenta,
    Red,
    White,
    Yellow,
    LightBlack,
    LightBlue,
    LightCyan,
    LightGreen,
    LightMagenta,
    LightRed,
    LightWhite,
    LightYellow,
}

/// One cell of a canvas: a grapheme with its colours.
#[derive(Debug)]
pub struct Grapheme {
    pub fg: ColorEnum,
    pub bg: ColorEnum,
    pub glyph: String,
}

/// A rectangle of cells: its corner and its size.
#[derive(Clone, Copy, Debug)]
pub struct Rect {
    pub x: usize,
    pub y: usize,
    pub w: usize,
    pub h: usize,
}

/// What a cell shows: foreground, background and the grapheme's characters.
pub type Cell = (ColorEnum, ColorEnum, Seq<char>);

pub open spec fn cell_of(g: Grapheme) -> Cell {
    (g.fg, g.bg, g.glyph@)
}

/// The grapheme clusters of a string, in order.
pub uninterp spec fn graphemes_of(s: Seq<char>) -> Seq<Seq<char>>;

/// Relies on unicode-segmentation's `UnicodeSegmentation::graphemes` with
/// extended clusters: the clusters of `s`, in order, which depend on `s`
/// alone.
#[verifier::external_body]
fn split_graphemes(s: &str) -> (r: Vec<String>)
    ensures
        r@.len() == graphemes_of(s@).len(),
        forall|i: int| 0 <= i < r@.len() ==> (#[trigger] r@[i])@ == graphemes_of(s@)[i],
{
    s.graphemes(true).map(|g| g.to_string()).collect()
}

/// An ASCII control character.
pub open spec fn is_control(c: char) -> bool {
    (c as u32) < 32 || (c as u32) == 127
}

pub open spec fn has_control(g: Seq<char>) -> bool {
    exists|i: int| 0 <= i < g.len() && is_control(#[trigger] g[i])
}

pub open spec fn count_newlines(g: Seq<char>) -> int
    decreases g.len(),
{
    if g.len() == 0 {
        0
    } else {
        count_newlines(g.drop_last()) + if g.last() == '\n' {
            1int
        } else {
            0int
        }
    }
}

/// The cursor, as column and line offsets, after the first `k` graphemes:
/// a grapheme with a control character is not drawn, a carriage return in
/// it goes back to the first column and each line feed down a line; any
/// other grapheme moves one column on.
pub open spec fn cursor(gs: Seq<Seq<char>>, k: int) -> (int, int)
    decreases k,
{
    if k <= 0 {
        (0, 0)
    } else {
        let (xi, yi) = cursor(gs, k - 1);
        let g = gs[k - 1];
        if has_control(g) {
            (
                if g.contains('\r') {
                    0
                } else {
                    xi
                },
                yi + count_newlines(g),
            )
        } else {
            (xi + 1, yi)
        }
    }
}

/// The cells after the first `k` graphemes of `gs` are drawn from `(x, y)`
/// in the clip `clip`, in colours `fg` and `bg`: each drawn grapheme that
/// falls inside the clip replaces its cell.
pub open spec fn paint(
    cells: Seq<Seq<Cell>>,
    clip: Rect,
    fg: ColorEnum,
    bg: ColorEnum,
    x: int,
    y: int,
    gs: Seq<Seq<char>>,
    k: int,
) -> Seq<Seq<Cell>>
    decreases k,
{
    if k <= 0 {
        cells
    } else {
        let prev = paint(cells, clip, fg, bg, x, y, gs, k - 1);
        let g = gs[k - 1];
        let px = x + cursor(gs, k - 1).0;
        let py = y + cursor(gs, k - 1).1;
        if !has_control(g) && 0 <= px < clip.w && 0 <= py < clip.h {
            prev.update(
                py + clip.y,
                prev[py + clip.y].update(px + clip.x, (fg, bg, g)),
            )
        } else {
            prev
        }
    }
}

/// The cells after the first `cols` cells of row `iy` of `src`'s clip
/// `sclip` are drawn, each in its own colours, from `(x, y)`.
pub open spec fn paint_row(
    cells: Seq<Seq<Cell>>,
    clip: Rect,
    x: int,
    y: int,
    src: Seq<Seq<Cell>>,
    sclip: Rect,
    iy: int,
    cols: int,
) -> Seq<Seq<Cell>>
    decreases cols,
{
    if cols <= 0 {
        cells
    } else {
        let prev = paint_row(cells, clip, x, y, src, sclip, iy, cols - 1);
        let ix = cols - 1;
        let c = src[iy + sclip.y][ix + sclip.x];
        paint(prev, clip, c.0, c.1, x + ix, y + iy, graphemes_of(c.2), graphemes_of(c.2).len() as int)
    }
}

/// The cells after the first `rows` rows of `src`'s clip `sclip` are drawn
/// from `(x, y)`, row by row.
pub open spec fn paint_rows(
    cells: Seq<Seq<Cell>>,
    clip: Rect,
    x: int,
    y: int,
    src: Seq<Seq<Cell>>,
    sclip: Rect,
    rows: int,
) -> Seq<Seq<Cell>>
    decreases rows,
{
    if rows <= 0 {
        cells
    } else {
        paint_row(
            paint_rows(cells, clip, x, y, src, sclip, rows - 1),
            clip,
            x,
            y,
            src,
            sclip,
            rows - 1,
            sclip.w as int,
        )
    }
}

proof fn lemma_count_newlines(g: Seq<char>)
    ensures
        0 <= count_newlines(g) <= g.len(),
    decreases g.len(),
{
    if g.len() > 0 {
        lemma_count_newlines(g.drop_last());
    }
}

proof fn lemma_cursor(gs: Seq<Seq<char>>, k: int)
    requires
        0 <= k,
    ensures
        0 <= cursor(gs, k).0 <= k,
        0 <= cursor(gs, k).1,
        forall|j: int| 0 <= j <= k ==> cursor(gs, j).1 <= #[trigger] cursor(gs, k).1,
    decreases k,
{
    if k > 0 {
        lemma_cursor(gs, k - 1);
        lemma_count_newlines(gs[k - 1]);
    }
}

/// Drawing from a corner at or beyond the clip's right or bottom edge
/// changes nothing.
proof fn lemma_paint_outside(
    cells: Seq<Seq<Cell>>,
    clip: Rect,
    fg: ColorEnum,
    bg: ColorEnum,
    x: int,
    y: int,
    gs: Seq<Seq<char>>,
    k: int,
)
    requires
        x >= clip.w || y >= clip.h,
    ensures
        paint(cells, clip, fg, bg, x, y, gs, k) == cells,
    decreases k,
{
    if k > 0 {
        lemma_paint_outside(cells, clip, fg, bg, x, y, gs, k - 1);
        lemma_cursor(gs, k - 1);
    }
}

/// A grid of coloured graphemes with a stack of clipping rectangles; all
/// coordinates are relative to the current clip.
pub struct TerminalCanvas {
    grid: Vec<Vec<Grapheme>>,
    prevclips: Vec<Rect>,
    clip: Rect,
    w: usize,
    h: usize,
    fg: ColorEnum,
    bg: ColorEnum,
}

/// A rectangle that lies inside a `w` by `h` grid.
pub open spec fn fits(r: Rect, w: int, h: int) -> bool {
    r.x + r.w <= w && r.y + r.h <= h
}

impl TerminalCanvas {
    /// The cells, row by row.
    pub closed spec fn cells(&self) -> Seq<Seq<Cell>> {
        self.grid@.map_values(|row: Vec<Grapheme>| row@.map_values(|g: Grapheme| cell_of(g)))
    }

    pub closed spec fn window(&self) -> Rect {
        self.clip
    }

    /// The clips that `unclip` goes back to, the latest last.
    pub closed spec fn stack(&self) -> Seq<Rect> {
        self.prevclips@
    }

    pub closed spec fn width(&self) -> int {
        self.w as int
    }

    pub closed spec fn height(&self) -> int {
        self.h as int
    }

    pub closed spec fn colors(&self) -> (ColorEnum, ColorEnum) {
        (self.fg, self.bg)
    }

    pub closed spec fn wf(&self) -> bool {
        &&& self.grid@.len() == self.h
        &&& forall|r: int| 0 <= r < self.h ==> (#[trigger] self.grid@[r])@.len() == self.w
        &&& fits(self.clip, self.w as int, self.h as int)
        &&& forall|i: int|
            0 <= i < self.prevclips@.len() ==> fits(
                #[trigger] self.prevclips@[i],
                self.w as int,
                self.h as int,
            )
    }

    /// A `w` by `h` canvas of blanks in colours `fg` and `bg`, clipped to
    /// the whole of it.
    pub fn new(w: usize, h: usize, fg: ColorEnum, bg: ColorEnum) -> (r: TerminalCanvas)
        ensures
            r.wf(),
            r.width() == w,
            r.height() == h,
            r.cells() == Seq::new(h as nat, |j: int| Seq::new(w as nat, |i: int| (fg, bg, " "@))),
            r.window() == (Rect { x: 0, y: 0, w, h }),
            r.stack().len() == 0,
            r.colors() == (fg, bg),
    {
        let mut v: Vec<Vec<Grapheme>> = Vec::new();
        let mut y: usize = 0;
        while y < h
            invariant
                y <= h,
                v@.len() == y,
                forall|r: int, i: int|
                    0 <= r < y && 0 <= i < w ==> cell_of(#[trigger] v@[r]@[i]) == (fg, bg, " "@),
                forall|r: int| 0 <= r < y ==> (#[trigger] v@[r])@.len() == w,
            decreases h - y,
        {
            let mut vv: Vec<Grapheme> = Vec::new();
            let mut x: usize = 0;
            while x < w
                invariant
                    x <= w,
                    vv@.len() == x,
                    forall|i: int| 0 <= i < x ==> cell_of(#[trigger] vv@[i]) == (fg, bg, " "@),
                decreases w - x,
            {
                vv.push(Grapheme { fg, bg, glyph: String::from_str(" ") });
                x += 1;
            }
            v.push(vv);
            y += 1;
        }
        let r = TerminalCanvas { grid: v, w, h, fg, bg, prevclips: Vec::new(), clip: Rect { x: 0, y: 0, w, h } };
        assert(r.cells() =~~= Seq::new(h as nat, |j: int| Seq::new(w as nat, |i: int| (fg, bg, " "@))));
        r
    }

    pub fn set_color(&mut self, fg: ColorEnum, bg: ColorEnum)
        ensures
            final(self).colors() == (fg, bg),
            final(self).cells() == old(self).cells(),
            final(self).window() == old(self).window(),
            final(self).stack() == old(self).stack(),
            final(self).width() == old(self).width(),
            final(self).height() == old(self).height(),
            old(self).wf() ==> final(self).wf(),
    {
        self.fg = fg;
        self.bg = bg;
    }

    pub fn get_color(&self) -> (r: (ColorEnum, ColorEnum))
        ensures
            r == self.colors(),
    {
        (self.fg, self.bg)
    }

    pub fn set_fg(&mut self, c: ColorEnum)
        ensures
            final(self).colors() == (c, old(self).colors().1),
            final(self).cells() == old(self).cells(),
            final(self).window() == old(self).window(),
            final(self).stack() == old(self).stack(),
            final(self).width() == old(self).width(),
            final(self).height() == old(self).height(),
            old(self).wf() ==> final(self).wf(),
    {
        self.fg = c;
    }

    pub fn set_bg(&mut self, c: ColorEnum)
        ensures
            final(self).colors() == (old(self).colors().0, c),
            final(self).cells() == old(self).cells(),
            final(self).window() == old(self).window(),
            final(self).stack() == old(self).stack(),
            final(self).width() == old(self).width(),
            final(self).height() == old(self).height(),
            old(self).wf() ==> final(self).wf(),
    {
        self.bg = c;
    }

    pub fn get_fg(&self) -> (r: ColorEnum)
        ensures
            r == self.colors().0,
    {
        self.fg
    }

    pub fn get_bg(&self) -> (r: ColorEnum)
        ensures
            r == self.colors().1,
    {
        self.bg
    }

    /// The size of the current clip.
    pub fn get_size(&self) -> (r: (usize, usize))
        ensures
            r == (self.window().w, self.window().h),
    {
        (self.clip.w, self.clip.h)
    }

    /// Narrows the clip to the `w` by `h` rectangle at `(x, y)` in it, and
    /// keeps the current one to go back to.
    pub fn clip(&mut self, x: usize, y: usize, w: usize, h: usize)
        requires
            old(self).wf(),
            x + w <= old(self).window().w,
            y + h <= old(self).window().h,
        ensures
            final(self).wf(),
            final(self).window() == (Rect {
                x: (old(self).window().x + x) as usize,
                y: (old(self).window().y + y) as usize,
                w,
                h,
            }),
            final(self).stack() == old(self).stack().push(old(self).window()),
            final(self).cells() == old(self).cells(),
            final(self).colors() == old(self).colors(),
            final(self).width() == old(self).width(),
            final(self).height() == old(self).height(),
    {
        let (rx, ry) = (self.clip.x, self.clip.y);
        let clip = Rect { x: rx + x, y: ry + y, w, h };
        self.prevclips.push(self.clip);
        self.clip = clip;
        assert forall|i: int|
            0 <= i < self.prevclips@.len() implies fits(
            #[trigger] self.prevclips@[i],
            self.w as int,
            self.h as int,
        ) by {
            if i < self.prevclips@.len() - 1 {
                assert(self.prevclips@[i] == old(self).prevclips@[i]);
            }
        }
    }

    /// How many clips `unclip` can go back.
    pub fn clip_depth(&self) -> (r: usize)
        ensures
            r == self.stack().len(),
    {
        self.prevclips.len()
    }

    /// Goes back to the clip before the last `clip`.
    pub fn unclip(&mut self)
        requires
            old(self).wf(),
            old(self).stack().len() > 0,
        ensures
            final(self).wf(),
            final(self).window() == old(self).stack().last(),
            final(self).stack() == old(self).stack().drop_last(),
            final(self).cells() == old(self).cells(),
            final(self).colors() == old(self).colors(),
            final(self).width() == old(self).width(),
            final(self).height() == old(self).height(),
    {
        let last = match self.prevclips.pop() {
            Some(r) => r,
            None => vstd::pervasive::unreached(),
        };
        self.clip = last;
        assert forall|i: int|
            0 <= i < self.prevclips@.len() implies fits(
            #[trigger] self.prevclips@[i],
            self.w as int,
            self.h as int,
        ) by {
            assert(self.prevclips@[i] == old(self).prevclips@[i]);
        }
    }

    /// The cell at `(x, y)` in the current clip.
    pub fn get(&self, x: usize, y: usize) -> (r: &Grapheme)
        requires
            self.wf(),
            x < self.window().w,
            y < self.window().h,
        ensures
            cell_of(*r) == self.cells()[y + self.window().y][x + self.window().x],
    {
        &self.grid[y + self.clip.y][x + self.clip.x]
    }

    /// Draws `ss` from `(x, y)` of the current clip in the current colours,
    /// grapheme by grapheme; what falls outside the clip is dropped.
    pub fn set(&mut self, x: isize, y: isize, ss: &str)
        requires
            old(self).wf(),
        ensures
            final(self).wf(),
            final(self).cells() == paint(
                old(self).cells(),
                old(self).window(),
                old(self).colors().0,
                old(self).colors().1,
                x as int,
                y as int,
                graphemes_of(ss@),
                graphemes_of(ss@).len() as int,
            ),
            final(self).window() == old(self).window(),
            final(self).stack() == old(self).stack(),
            final(self).colors() == old(self).colors(),
            final(self).width() == old(self).width(),
            final(self).height() == old(self).height(),
    {
        let ghost gs = graphemes_of(ss@);
        let ghost cells0 = self.cells();
        if (x as i128) < (self.clip.w as i128) && (y as i128) < (self.clip.h as i128) {
            let glyphs = split_graphemes(ss);
            let mut yi: i128 = 0;
            let mut xi: i128 = 0;
            let mut k: usize = 0;
            while k < glyphs.len()
                invariant
                    self.wf(),
                    glyphs@.len() == gs.len(),
                    forall|i: int| 0 <= i < glyphs@.len() ==> (#[trigger] glyphs@[i])@ == gs[i],
                    k <= glyphs@.len(),
                    xi == cursor(gs, k as int).0,
                    yi == (if cursor(gs, k as int).1 < 0x10000000000000000000000000 {
                        cursor(gs, k as int).1
                    } else {
                        0x10000000000000000000000000
                    }),
                    self.cells() == paint(cells0, self.clip, self.fg, self.bg, x as int, y as int, gs, k as int),
                    self.clip == old(self).clip,
                    self.prevclips@ == old(self).prevclips@,
                    self.fg == old(self).fg,
                    self.bg == old(self).bg,
                    self.w == old(self).w,
                    self.h == old(self).h,
                decreases glyphs.len() - k,
            {
                proof {
                    lemma_cursor(gs, k as int);
                    lemma_cursor(gs, k + 1);
                }
                let glyph = &glyphs[k];
                let n = glyph.as_str().unicode_len();
                let mut is_escape = false;
                let mut has_cr = false;
                let mut nl: usize = 0;
                let mut i: usize = 0;
                while i < n
                    invariant
                        n == glyph@.len(),
                        i <= n,
                        nl <= i,
                        is_escape == exists|j: int| 0 <= j < i && is_control(#[trigger] glyph@[j]),
                        has_cr == exists|j: int| 0 <= j < i && #[trigger] glyph@[j] == '\r',
                        nl == count_newlines(glyph@.take(i as int)),
                    decreases n - i,
                {
                    let ch = glyph.as_str().get_char(i);
                    proof {
                        assert(glyph@.take(i + 1).drop_last() =~= glyph@.take(i as int));
                        assert(glyph@.take(i + 1).last() == ch);
                    }
                    if (ch as u32) < 32 || (ch as u32) == 127 {
                        is_escape = true;
                        if ch == '\r' {
                            has_cr = true;
                        } else if ch == '\n' {
                            nl = nl + 1;
                        }
                    }
                    i += 1;
                }
                proof {
                    assert(glyph@.take(n as int) =~= glyph@);
                    lemma_count_newlines(glyph@);
                    if is_escape {
                        assert(has_control(glyph@));
                    } else {
                        assert(!has_control(glyph@));
                    }
                }
                let ghost before = self.cells();
                let ghost g = gs[k as int];
                assert(glyph@ == g);
                if is_escape {
                    if has_cr {
                        xi = 0;
                    }
                    if yi < 0x10000000000000000000000000 {
                        yi = yi + nl as i128;
                        if yi > 0x10000000000000000000000000 {
                            yi = 0x10000000000000000000000000;
                        }
                    }
                    assert(self.cells() == paint(cells0, self.clip, self.fg, self.bg, x as int, y as int, gs, k + 1));
                } else {
                    let px = x as i128 + xi;
                    let py = y as i128 + yi;
                    if px < self.clip.w as i128 && py < self.clip.h as i128 && px >= 0 && py >= 0 {
                        let row = py as usize + self.clip.y;
                        let col = px as usize + self.clip.x;
                        let ghost grid0 = self.grid@;
                        self.grid[row][col] = Grapheme { fg: self.fg, bg: self.bg, glyph: glyph.clone() };
                        proof {
                            assert forall|r: int| 0 <= r < self.h implies (#[trigger] self.grid@[r])@.len() == self.w by {
                                if r != row {
                                    assert(self.grid@[r] == grid0[r]);
                                }
                            }
                            assert(self.cells() =~~= before.update(
                                row as int,
                                before[row as int].update(col as int, (self.fg, self.bg, g)),
                            ));
                        }
                    }
                    xi = xi + 1;
                    assert(self.cells() == paint(cells0, self.clip, self.fg, self.bg, x as int, y as int, gs, k + 1));
                }
                k += 1;
            }
        } else {
            proof {
                lemma_paint_outside(cells0, self.clip, self.fg, self.bg, x as int, y as int, gs, gs.len() as int);
            }
        }
    }

    /// Draws the current clip of `canv` from `(x, y)` of this canvas's
    /// clip, cell by cell in `canv`'s colours, and keeps this canvas's
    /// colours.
    pub fn set_canv(&mut self, x: isize, y: isize, canv: &TerminalCanvas)
        requires
            old(self).wf(),
            canv.wf(),
            canv.window().w <= isize::MAX,
            canv.window().h <= isize::MAX,
            x + canv.window().w <= isize::MAX,
            y + canv.window().h <= isize::MAX,
        ensures
            final(self).wf(),
            final(self).cells() == paint_rows(
                old(self).cells(),
                old(self).window(),
                x as int,
                y as int,
                canv.cells(),
                canv.window(),
                canv.window().h as int,
            ),
            final(self).window() == old(self).window(),
            final(self).stack() == old(self).stack(),
            final(self).colors() == old(self).colors(),
            final(self).width() == old(self).width(),
            final(self).height() == old(self).height(),
    {
        let (w, h) = canv.get_size();
        let (fg, bg) = self.get_color();
        let ghost cells0 = self.cells();
        let mut iy: usize = 0;
        while iy < h
            invariant
                self.wf(),
                canv.wf(),
                w == canv.window().w,
                h == canv.window().h,
                w <= isize::MAX,
                h <= isize::MAX,
                x + w <= isize::MAX,
                y + h <= isize::MAX,
                iy <= h,
                self.cells() == paint_rows(cells0, self.clip, x as int, y as int, canv.cells(), canv.window(), iy as int),
                self.clip == old(self).clip,
                self.prevclips@ == old(self).prevclips@,
                self.w == old(self).w,
                self.h == old(self).h,
            decreases h - iy,
        {
            let ghost start = self.cells();
            let mut ix: usize = 0;
            while ix < w
                invariant
                    self.wf(),
                    canv.wf(),
                    w == canv.window().w,
                    h == canv.window().h,
                    w <= isize::MAX,
                    h <= isize::MAX,
                    x + w <= isize::MAX,
                    y + h <= isize::MAX,
                    iy < h,
                    ix <= w,
                    self.cells() == paint_row(start, self.clip, x as int, y as int, canv.cells(), canv.window(), iy as int, ix as int),
                    self.clip == old(self).clip,
                    self.prevclips@ == old(self).prevclips@,
                    self.w == old(self).w,
                    self.h == old(self).h,
                decreases w - ix,
            {
                let px = x + ix as isize;
                let py = y + iy as isize;
                let g = canv.get(ix, iy);
                self.set_color(g.fg, g.bg);
                let ghost prev = self.cells();
                let text = g.glyph.as_str();
                assert(text@ == g.glyph@);
                self.set(px, py, text);
                proof {
                    let c = canv.cells()[iy + canv.window().y][ix + canv.window().x];
                    assert(c == (g.fg, g.bg, g.glyph@));
                    assert(px as int == x + ix && py as int == y + iy);
                }
                ix += 1;
            }
            iy += 1;
        }
        self.set_color(fg, bg);
    }
}

} // verus!
