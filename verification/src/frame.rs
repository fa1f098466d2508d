use vstd::prelude::*;

verus! {

/// Columns of the terminal frame the crab is drawn on.
pub const WIDTH: usize = 120;

/// Rows of the terminal frame the crab is drawn on.
pub const HEIGHT: usize = 30;

/// What an untouched cell shows.
pub const BLANK: char = ' ';

/// The depth of a cell that nothing has been drawn on.
pub const NO_DEPTH: u64 = 0;

/// The mathematical content of a frame: its size, one glyph and one depth
/// per cell, cells stored row after row.
pub struct FrameView {
    pub width: nat,
    pub height: nat,
    pub glyphs: Seq<char>,
    pub depths: Seq<u64>,
}

/// A surface offered to one cell: the cell, how far the surface is, and the
/// glyph it shows.
pub struct Offer {
    pub x: int,
    pub y: int,
    pub depth: u64,
    pub glyph: char,
}

/// The frame of the given size with every cell blank and without depth.
pub open spec fn blank_frame(width: nat, height: nat) -> FrameView {
    FrameView {
        width,
        height,
        glyphs: Seq::new(width * height, |i: int| BLANK),
        depths: Seq::new(width * height, |i: int| NO_DEPTH),
    }
}

impl FrameView {
    /// Both buffers hold exactly one entry per cell.
    pub open spec fn well_formed(self) -> bool {
        &&& self.glyphs.len() == self.width * self.height
        &&& self.depths.len() == self.width * self.height
    }

    /// Whether column `x` of row `y` lies on the frame.
    pub open spec fn in_bounds(self, x: int, y: int) -> bool {
        0 <= x < self.width && 0 <= y < self.height
    }

    /// The position of cell (`x`, `y`) in the buffers.
    pub open spec fn cell(self, x: int, y: int) -> int {
        y * self.width + x
    }

    pub open spec fn glyph(self, x: int, y: int) -> char {
        self.glyphs[self.cell(x, y)]
    }

    pub open spec fn depth(self, x: int, y: int) -> u64 {
        self.depths[self.cell(x, y)]
    }

    /// A surface at `depth` is drawn over cell (`x`, `y`) when nothing is
    /// there yet or when it lies nearer than what is there.
    pub open spec fn passes_depth_test(self, x: int, y: int, depth: u64) -> bool {
        self.depth(x, y) == NO_DEPTH || depth < self.depth(x, y)
    }

    /// The frame after a surface at `depth` showing `glyph` is offered to
    /// cell (`x`, `y`): it takes the cell when the cell is on the frame and
    /// the depth test passes; otherwise nothing changes.
    pub open spec fn plotted(self, x: int, y: int, depth: u64, glyph: char) -> FrameView {
        if self.in_bounds(x, y) && self.passes_depth_test(x, y, depth) {
            FrameView {
                width: self.width,
                height: self.height,
                glyphs: self.glyphs.update(self.cell(x, y), glyph),
                depths: self.depths.update(self.cell(x, y), depth),
            }
        } else {
            self
        }
    }

    /// The frame after the offers are plotted one after another, in order.
    pub open spec fn plotted_all(self, offers: Seq<Offer>) -> FrameView
        decreases offers.len(),
    {
        if offers.len() == 0 {
            self
        } else {
            let o = offers.last();
            self.plotted_all(offers.drop_last()).plotted(o.x, o.y, o.depth, o.glyph)
        }
    }

    /// A cell holds a depth exactly when it shows a mark.
    pub open spec fn marks_match_depths(self) -> bool {
        forall|i: int|
            0 <= i < self.depths.len() ==> (#[trigger] self.depths[i] != NO_DEPTH) == (
            self.glyphs[i] != BLANK)
    }

    /// The same frame with every cell wiped.
    pub open spec fn cleared(self) -> FrameView {
        blank_frame(self.width, self.height)
    }

    /// The glyphs of row `y`, left to right.
    pub open spec fn row(self, y: int) -> Seq<char> {
        self.glyphs.subrange(y * self.width, y * self.width + self.width)
    }

    /// Where column `x` of row `y` stands in the frame's text; column
    /// `width` of a row is its line break.
    pub open spec fn text_position(self, x: int, y: int) -> int {
        y * (self.width + 1) + x
    }

    /// The first `n` rows, each followed by a line break.
    pub open spec fn text_of_rows(self, n: nat) -> Seq<char>
        decreases n,
    {
        if n == 0 {
            Seq::empty()
        } else {
            self.text_of_rows((n - 1) as nat) + self.row(n - 1) + seq!['\n']
        }
    }

    /// What the frame prints as: every row followed by a line break.
    pub open spec fn text(self) -> Seq<char> {
        self.text_of_rows(self.height)
    }
}

/// A cell on the frame has a position inside the buffers.
pub proof fn lemma_cell_in_range(width: int, height: int, x: int, y: int)
    by (nonlinear_arith)
    requires
        0 <= x < width,
        0 <= y < height,
    ensures
        0 <= y * width + x < width * height,
{
}

/// A whole row lies inside the buffers.
pub proof fn lemma_row_in_range(width: int, height: int, y: int)
    by (nonlinear_arith)
    requires
        0 <= width,
        0 <= y < height,
    ensures
        0 <= y * width,
        y * width + width <= width * height,
{
}

/// Two cells on the frame share a buffer position only when they are the
/// same cell.
pub proof fn lemma_cell_unique(width: int, x1: int, y1: int, x2: int, y2: int)
    by (nonlinear_arith)
    requires
        0 <= x1 < width,
        0 <= x2 < width,
        0 <= y1,
        0 <= y2,
        y1 * width + x1 == y2 * width + x2,
    ensures
        x1 == x2,
        y1 == y2,
{
    if y1 < y2 {
        assert(y1 * width + width <= y2 * width);
    } else if y2 < y1 {
        assert(y2 * width + width <= y1 * width);
    }
}

/// Appends one character to a string.
#[verifier::external_body]
fn push_char(s: &mut String, c: char)
    ensures
        final(s)@ == old(s)@.push(c),
{
    s.push(c);
}

/// A character frame with a depth buffer: each cell keeps the glyph of the
/// nearest surface drawn on it so far.
pub struct Frame {
    width: usize,
    height: usize,
    glyphs: Vec<char>,
    depths: Vec<u64>,
}

impl View for Frame {
    type V = FrameView;

    closed spec fn view(&self) -> FrameView {
        FrameView {
            width: self.width as nat,
            height: self.height as nat,
            glyphs: self.glyphs@,
            depths: self.depths@,
        }
    }
}

impl Frame {
    /// Every frame keeps one glyph and one depth per cell.
    #[verifier::type_invariant]
    spec fn buffers_fit(self) -> bool {
        self@.well_formed()
    }

    /// A blank frame of `width` columns and `height` rows.
    pub fn new(width: usize, height: usize) -> (frame: Frame)
        requires
            width * height <= usize::MAX,
        ensures
            frame@ == blank_frame(width as nat, height as nat),
            frame@.well_formed(),
            frame@.width == width,
            frame@.height == height,
            frame@.glyphs.len() == width * height,
            frame@.depths.len() == width * height,
            forall|i: int|
                0 <= i < width * height ==> frame@.glyphs[i] == ' ' && frame@.depths[i] == 0,
    {
        proof {
            crate::laws::lemma_blank_frame_cells(width as nat, height as nat);
        }
        let size = width * height;
        let mut glyphs: Vec<char> = Vec::new();
        let mut depths: Vec<u64> = Vec::new();
        let mut i: usize = 0;
        while i < size
            invariant
                i <= size,
                glyphs@ == Seq::new(i as nat, |k: int| BLANK),
                depths@ == Seq::new(i as nat, |k: int| NO_DEPTH),
            decreases size - i,
        {
            glyphs.push(BLANK);
            depths.push(NO_DEPTH);
            i = i + 1;
        }
        Frame { width, height, glyphs, depths }
    }

    /// The frame the crab is drawn on.
    pub fn screen() -> (frame: Frame)
        ensures
            frame@ == blank_frame(WIDTH as nat, HEIGHT as nat),
            frame@.well_formed(),
            frame@.width == 120,
            frame@.height == 30,
            frame@.glyphs.len() == 3600,
            frame@.depths.len() == 3600,
            forall|i: int| 0 <= i < 3600 ==> frame@.glyphs[i] == ' ' && frame@.depths[i] == 0,
    {
        Frame::new(WIDTH, HEIGHT)
    }

    pub fn width(&self) -> (w: usize)
        ensures
            w == self@.width,
            self@.well_formed(),
    {
        proof {
            use_type_invariant(self);
        }
        self.width
    }

    pub fn height(&self) -> (h: usize)
        ensures
            h == self@.height,
            self@.well_formed(),
    {
        proof {
            use_type_invariant(self);
        }
        self.height
    }

    /// Wipes every cell: blank glyph, no depth.
    pub fn clear(&mut self)
        ensures
            final(self)@ == old(self)@.cleared(),
            final(self)@.well_formed(),
            final(self)@.width == old(self)@.width,
            final(self)@.height == old(self)@.height,
            final(self)@.glyphs.len() == old(self)@.glyphs.len(),
            final(self)@.depths.len() == old(self)@.depths.len(),
            forall|i: int|
                0 <= i < old(self)@.glyphs.len() ==> final(self)@.glyphs[i] == ' '
                    && final(self)@.depths[i] == 0,
    {
        proof {
            use_type_invariant(&*self);
            crate::laws::lemma_cleared_cells(self@);
        }
        let size = self.glyphs.len();
        let mut i: usize = 0;
        while i < size
            invariant
                i <= size,
                size == self.glyphs@.len(),
                self.depths@.len() == size,
                self.width * self.height == size,
                self.width == old(self).width,
                self.height == old(self).height,
                forall|k: int| 0 <= k < i ==> self.glyphs@[k] == BLANK,
                forall|k: int| 0 <= k < i ==> self.depths@[k] == NO_DEPTH,
            decreases size - i,
        {
            self.glyphs[i] = BLANK;
            self.depths[i] = NO_DEPTH;
            i = i + 1;
        }
        assert(self@.glyphs =~= old(self)@.cleared().glyphs);
        assert(self@.depths =~= old(self)@.cleared().depths);
    }

    /// The glyph of cell (`x`, `y`), or `None` off the frame.
    pub fn glyph_at(&self, x: usize, y: usize) -> (g: Option<char>)
        ensures
            g == (if self@.in_bounds(x as int, y as int) {
                Some(self@.glyph(x as int, y as int))
            } else {
                None::<char>
            }),
            (x < self@.width && y < self@.height) ==> g == Some(
                self@.glyphs[y * self@.width + x],
            ),
            !(x < self@.width && y < self@.height) ==> g is None,
    {
        proof {
            use_type_invariant(self);
        }
        let size = self.glyphs.len();
        if x >= self.width || y >= self.height {
            return None;
        }
        proof {
            lemma_cell_in_range(self.width as int, self.height as int, x as int, y as int);
        }
        Some(self.glyphs[y * self.width + x])
    }

    /// The depth of cell (`x`, `y`), or `None` off the frame.
    pub fn depth_at(&self, x: usize, y: usize) -> (d: Option<u64>)
        ensures
            d == (if self@.in_bounds(x as int, y as int) {
                Some(self@.depth(x as int, y as int))
            } else {
                None::<u64>
            }),
            (x < self@.width && y < self@.height) ==> d == Some(
                self@.depths[y * self@.width + x],
            ),
            !(x < self@.width && y < self@.height) ==> d is None,
    {
        proof {
            use_type_invariant(self);
        }
        let size = self.glyphs.len();
        if x >= self.width || y >= self.height {
            return None;
        }
        proof {
            lemma_cell_in_range(self.width as int, self.height as int, x as int, y as int);
        }
        Some(self.depths[y * self.width + x])
    }

    /// Offers a surface at `depth` showing `glyph` to cell (`x`, `y`).
    /// Returns whether the cell took it.
    pub fn plot(&mut self, x: usize, y: usize, depth: u64, glyph: char) -> (drawn: bool)
        ensures
            final(self)@ == old(self)@.plotted(x as int, y as int, depth, glyph),
            final(self)@.well_formed(),
            drawn == (old(self)@.in_bounds(x as int, y as int)
                && old(self)@.passes_depth_test(x as int, y as int, depth)),
            final(self)@.width == old(self)@.width,
            final(self)@.height == old(self)@.height,
            drawn == (x < old(self)@.width && y < old(self)@.height && (old(self)@.depths[y
                * old(self)@.width + x] == 0 || depth < old(self)@.depths[y * old(self)@.width
                + x])),
            drawn ==> final(self)@.glyphs == old(self)@.glyphs.update(
                y * old(self)@.width + x,
                glyph,
            ),
            drawn ==> final(self)@.depths == old(self)@.depths.update(
                y * old(self)@.width + x,
                depth,
            ),
            !drawn ==> final(self)@ == old(self)@,
    {
        proof {
            use_type_invariant(&*self);
        }
        let size = self.glyphs.len();
        if x >= self.width || y >= self.height {
            return false;
        }
        proof {
            lemma_cell_in_range(self.width as int, self.height as int, x as int, y as int);
        }
        let idx = y * self.width + x;
        let current = self.depths[idx];
        if current == NO_DEPTH || depth < current {
            self.glyphs[idx] = glyph;
            self.depths[idx] = depth;
            true
        } else {
            false
        }
    }

    /// The frame as text: every row followed by a line break.
    pub fn to_text(&self) -> (text: String)
        ensures
            text@ == self@.text(),
            text@.len() == self@.height * (self@.width + 1),
            forall|k: int|
                0 <= k < text@.len() ==> #[trigger] text@[k] == (if k % (self@.width + 1) as int
                    == self@.width {
                    '\n'
                } else {
                    self@.glyphs[(k / (self@.width + 1) as int) * self@.width + k % (self@.width
                        + 1) as int]
                }),
    {
        proof {
            use_type_invariant(self);
            crate::laws::lemma_text_cells(self@);
        }
        let size = self.glyphs.len();
        let mut out = String::new();
        let mut y: usize = 0;
        while y < self.height
            invariant
                size == self.glyphs@.len(),
                y <= self.height,
                self@.well_formed(),
                out@ == self@.text_of_rows(y as nat),
            decreases self.height - y,
        {
            proof {
                lemma_row_in_range(self.width as int, self.height as int, y as int);
            }
            let start = y * self.width;
            let mut x: usize = 0;
            while x < self.width
                invariant
                    size == self.glyphs@.len(),
                    x <= self.width,
                    y < self.height,
                    start == y * self.width,
                    start + self.width <= self.glyphs@.len(),
                    out@ == self@.text_of_rows(y as nat) + self@.glyphs.subrange(
                        start as int,
                        start + x,
                    ),
                decreases self.width - x,
            {
                push_char(&mut out, self.glyphs[start + x]);
                proof {
                    assert(self@.glyphs.subrange(start as int, start + x + 1)
                        =~= self@.glyphs.subrange(start as int, start + x).push(
                        self@.glyphs[start + x],
                    ));
                }
                x = x + 1;
            }
            push_char(&mut out, '\n');
            proof {
                assert(self@.row(y as int) =~= self@.glyphs.subrange(
                    start as int,
                    start + self.width,
                ));
                assert(out@ =~= self@.text_of_rows((y + 1) as nat));
            }
            y = y + 1;
        }
        out
    }
}

} // verus!
