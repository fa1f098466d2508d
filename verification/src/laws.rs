use vstd::prelude::*;
use vstd::arithmetic::div_mod::{lemma_fundamental_div_mod, lemma_mod_pos_bound};
use vstd::arithmetic::mul::{lemma_mul_inequality, lemma_mul_is_commutative};
use crate::frame::{FrameView, Offer, NO_DEPTH, BLANK, blank_frame, lemma_cell_in_range, lemma_cell_unique, lemma_row_in_range};

verus! {

proof fn lemma_position_before_row(w: int, y: int, x: int, m: int)
    by (nonlinear_arith)
    requires
        0 <= w,
        0 <= y < m,
        0 <= x <= w,
    ensures
        0 <= y * (w + 1) + x < m * (w + 1),
{
    assert(y * (w + 1) + x < (y + 1) * (w + 1));
    assert((y + 1) * (w + 1) <= m * (w + 1));
}

proof fn lemma_next_row_length(w: int, m: int)
    by (nonlinear_arith)
    requires
        0 <= w,
        0 <= m,
    ensures
        (m + 1) * (w + 1) == m * (w + 1) + w + 1,
        0 <= m * (w + 1),
{
}

proof fn lemma_text_of_rows_layout(f: FrameView, n: nat)
    requires
        f.well_formed(),
        n <= f.height,
    ensures
        f.text_of_rows(n).len() == n * (f.width + 1),
        forall|x: int, y: int|
            0 <= x < f.width && 0 <= y < n ==> f.text_of_rows(n)[#[trigger] f.text_position(x, y)]
                == f.glyph(x, y),
        forall|y: int|
            0 <= y < n ==> f.text_of_rows(n)[#[trigger] f.text_position(f.width as int, y)] == '\n',
    decreases n,
{
    let w = f.width as int;
    if n > 0 {
        let m = (n - 1) as nat;
        lemma_text_of_rows_layout(f, m);
        lemma_row_in_range(w, f.height as int, m as int);
        lemma_next_row_length(w, m as int);
        let prev = f.text_of_rows(m);
        let row = f.row(m as int);
        let t = f.text_of_rows(n);
        assert(row.len() == w);
        assert(t == prev + row + seq!['\n']);
        assert(t.len() == n * (w + 1));
        assert forall|x: int, y: int| 0 <= x < w && 0 <= y < n implies t[#[trigger] f.text_position(x, y)]
            == f.glyph(x, y) by {
            if y < m {
                lemma_position_before_row(w, y, x, m as int);
                assert(prev[f.text_position(x, y)] == f.glyph(x, y));
            } else {
                assert(f.text_position(x, y) == m * (w + 1) + x);
                lemma_cell_in_range(w, f.height as int, x, y);
                assert(row[x] == f.glyphs[m * w + x]);
            }
        }
        assert forall|y: int| 0 <= y < n implies t[#[trigger] f.text_position(w, y)] == '\n' by {
            if y < m {
                lemma_position_before_row(w, y, w, m as int);
                assert(prev[f.text_position(w, y)] == '\n');
            } else {
                assert(f.text_position(w, y) == m * (w + 1) + w);
            }
        }
    }
}

/// The text of a frame has one line per row, each as wide as the frame and
/// ended by a line break, and each glyph stands where its cell is.
pub proof fn lemma_text_layout(f: FrameView)
    requires
        f.well_formed(),
    ensures
        f.text().len() == f.height * (f.width + 1),
        forall|x: int, y: int|
            f.in_bounds(x, y) ==> f.text()[#[trigger] f.text_position(x, y)] == f.glyph(x, y),
        forall|y: int|
            0 <= y < f.height ==> f.text()[#[trigger] f.text_position(f.width as int, y)] == '\n',
{
    lemma_text_of_rows_layout(f, f.height);
}

/// Offering the same surface to the same cell twice changes the frame no
/// more than offering it once.
pub proof fn lemma_plot_idempotent(f: FrameView, x: int, y: int, depth: u64, glyph: char)
    requires
        f.well_formed(),
    ensures
        f.plotted(x, y, depth, glyph).plotted(x, y, depth, glyph) == f.plotted(x, y, depth, glyph),
{
    let once = f.plotted(x, y, depth, glyph);
    if f.in_bounds(x, y) && f.passes_depth_test(x, y, depth) {
        lemma_cell_in_range(f.width as int, f.height as int, x, y);
        let twice = once.plotted(x, y, depth, glyph);
        assert(twice.glyphs =~= once.glyphs);
        assert(twice.depths =~= once.depths);
    }
}

/// Plotting changes nothing but the offered cell, and a cell's depth never
/// grows once something is drawn on it: it stays, or it was empty, or it
/// comes nearer.
pub proof fn lemma_plot_only_brings_nearer(f: FrameView, x: int, y: int, depth: u64, glyph: char)
    requires
        f.well_formed(),
    ensures
        f.plotted(x, y, depth, glyph).well_formed(),
        f.plotted(x, y, depth, glyph).width == f.width,
        f.plotted(x, y, depth, glyph).height == f.height,
        forall|cx: int, cy: int|
            f.in_bounds(cx, cy) && !(cx == x && cy == y) ==> {
                &&& #[trigger] f.plotted(x, y, depth, glyph).glyph(cx, cy) == f.glyph(cx, cy)
                &&& f.plotted(x, y, depth, glyph).depth(cx, cy) == f.depth(cx, cy)
            },
        forall|i: int|
            0 <= i < f.depths.len() ==> {
                let d = #[trigger] f.plotted(x, y, depth, glyph).depths[i];
                d == f.depths[i] || f.depths[i] == NO_DEPTH || d < f.depths[i]
            },
{
    let g = f.plotted(x, y, depth, glyph);
    if f.in_bounds(x, y) && f.passes_depth_test(x, y, depth) {
        lemma_cell_in_range(f.width as int, f.height as int, x, y);
        assert forall|cx: int, cy: int| f.in_bounds(cx, cy) && !(cx == x && cy == y) implies {
            &&& #[trigger] g.glyph(cx, cy) == f.glyph(cx, cy)
            &&& g.depth(cx, cy) == f.depth(cx, cy)
        } by {
            lemma_cell_in_range(f.width as int, f.height as int, cx, cy);
            if f.cell(cx, cy) == f.cell(x, y) {
                lemma_cell_unique(f.width as int, cx, cy, x, y);
            }
        }
    }
}

/// On a cell that nothing has been drawn on, the nearer of two surfaces is
/// what shows, whichever is offered first.
pub proof fn lemma_nearest_surface_shows(
    f: FrameView,
    x: int,
    y: int,
    d1: u64,
    g1: char,
    d2: u64,
    g2: char,
)
    requires
        f.well_formed(),
        f.in_bounds(x, y),
        f.depth(x, y) == NO_DEPTH,
        d1 != NO_DEPTH,
        d2 != NO_DEPTH,
        d1 != d2,
    ensures
        f.plotted(x, y, d1, g1).plotted(x, y, d2, g2).glyph(x, y) == (if d1 < d2 {
            g1
        } else {
            g2
        }),
        f.plotted(x, y, d1, g1).plotted(x, y, d2, g2).depth(x, y) == (if d1 < d2 {
            d1
        } else {
            d2
        }),
{
    lemma_cell_in_range(f.width as int, f.height as int, x, y);
}

/// Two offers commute when they go to different cells, or when they come at
/// different depths, neither of them without depth.
pub proof fn lemma_plots_commute(
    f: FrameView,
    x1: int,
    y1: int,
    d1: u64,
    g1: char,
    x2: int,
    y2: int,
    d2: u64,
    g2: char,
)
    requires
        f.well_formed(),
        !(x1 == x2 && y1 == y2) || (d1 != d2 && d1 != NO_DEPTH && d2 != NO_DEPTH),
    ensures
        f.plotted(x1, y1, d1, g1).plotted(x2, y2, d2, g2) == f.plotted(x2, y2, d2, g2).plotted(
            x1,
            y1,
            d1,
            g1,
        ),
{
    let a = f.plotted(x1, y1, d1, g1).plotted(x2, y2, d2, g2);
    let b = f.plotted(x2, y2, d2, g2).plotted(x1, y1, d1, g1);
    if f.in_bounds(x1, y1) {
        lemma_cell_in_range(f.width as int, f.height as int, x1, y1);
    }
    if f.in_bounds(x2, y2) {
        lemma_cell_in_range(f.width as int, f.height as int, x2, y2);
    }
    if x1 == x2 && y1 == y2 {
        assert(a.glyphs =~= b.glyphs);
        assert(a.depths =~= b.depths);
    } else {
        if f.in_bounds(x1, y1) && f.in_bounds(x2, y2) && f.cell(x1, y1) == f.cell(x2, y2) {
            lemma_cell_unique(f.width as int, x1, y1, x2, y2);
        }
        assert(a.glyphs =~= b.glyphs);
        assert(a.depths =~= b.depths);
    }
}

/// A wiped frame prints as blank lines.
pub proof fn lemma_cleared_text_is_blank(f: FrameView)
    requires
        f.well_formed(),
    ensures
        f.cleared().well_formed(),
        f.cleared().text().len() == f.height * (f.width + 1),
        forall|x: int, y: int|
            f.in_bounds(x, y) ==> f.cleared().text()[#[trigger] f.text_position(x, y)] == BLANK,
        forall|y: int|
            0 <= y < f.height ==> f.cleared().text()[#[trigger] f.text_position(f.width as int, y)]
                == '\n',
{
    let c = f.cleared();
    lemma_text_layout(c);
    assert forall|x: int, y: int| f.in_bounds(x, y) implies c.text()[#[trigger] f.text_position(x, y)]
        == BLANK by {
        assert(c.text_position(x, y) == f.text_position(x, y));
        lemma_cell_in_range(f.width as int, f.height as int, x, y);
    }
    assert forall|y: int| 0 <= y < f.height implies c.text()[#[trigger] f.text_position(f.width as int, y)]
        == '\n' by {
        assert(c.text_position(f.width as int, y) == f.text_position(f.width as int, y));
    }
}

/// Offer `i` goes to cell (`x`, `y`).
pub open spec fn offered_at(offers: Seq<Offer>, i: int, x: int, y: int) -> bool {
    0 <= i < offers.len() && offers[i].x == x && offers[i].y == y
}

/// Among the offers to cell (`x`, `y`), offer `j` is a nearest one and the
/// first of the nearest ones.
pub open spec fn first_nearest_offer(offers: Seq<Offer>, x: int, y: int, j: int) -> bool {
    &&& offered_at(offers, j, x, y)
    &&& forall|i: int| #[trigger] offered_at(offers, i, x, y) ==> offers[j].depth <= offers[i].depth
    &&& forall|i: int|
        0 <= i < j && #[trigger] offered_at(offers, i, x, y) ==> offers[i].depth != offers[j].depth
}

/// Offer `j` is what cell (`x`, `y`) of `f` shows after all the offers: it
/// is the first nearest offer to the cell, and nearer than what the cell
/// held, if it held anything.
pub open spec fn shows_through(f: FrameView, offers: Seq<Offer>, x: int, y: int, j: int) -> bool {
    &&& first_nearest_offer(offers, x, y, j)
    &&& f.depth(x, y) == NO_DEPTH || offers[j].depth < f.depth(x, y)
}

/// Plotting offers keeps the frame's size and well-formedness.
pub proof fn lemma_plotted_all_well_formed(f: FrameView, offers: Seq<Offer>)
    requires
        f.well_formed(),
    ensures
        f.plotted_all(offers).well_formed(),
        f.plotted_all(offers).width == f.width,
        f.plotted_all(offers).height == f.height,
    decreases offers.len(),
{
    if offers.len() > 0 {
        let o = offers.last();
        lemma_plotted_all_well_formed(f, offers.drop_last());
        lemma_plot_only_brings_nearer(f.plotted_all(offers.drop_last()), o.x, o.y, o.depth, o.glyph);
    }
}

proof fn lemma_cell_after_offers(f: FrameView, offers: Seq<Offer>, x: int, y: int)
    requires
        f.well_formed(),
        f.in_bounds(x, y),
        forall|i: int| 0 <= i < offers.len() ==> #[trigger] offers[i].depth != NO_DEPTH,
    ensures
        forall|i: int|
            #[trigger] offered_at(offers, i, x, y) ==> {
                &&& f.plotted_all(offers).depth(x, y) != NO_DEPTH
                &&& f.plotted_all(offers).depth(x, y) <= offers[i].depth
            },
        f.depth(x, y) != NO_DEPTH ==> {
            &&& f.plotted_all(offers).depth(x, y) != NO_DEPTH
            &&& f.plotted_all(offers).depth(x, y) <= f.depth(x, y)
        },
        ({
            &&& f.plotted_all(offers).depth(x, y) == f.depth(x, y)
            &&& f.plotted_all(offers).glyph(x, y) == f.glyph(x, y)
        }) || exists|j: int|
            {
                &&& #[trigger] shows_through(f, offers, x, y, j)
                &&& f.plotted_all(offers).depth(x, y) == offers[j].depth
                &&& f.plotted_all(offers).glyph(x, y) == offers[j].glyph
            },
    decreases offers.len(),
{
    if offers.len() == 0 {
        return;
    }
    let n = offers.len() as int;
    let rest = offers.drop_last();
    let o = offers.last();
    assert(o == offers[n - 1]);
    assert forall|i: int| 0 <= i < rest.len() implies #[trigger] rest[i].depth != NO_DEPTH by {
        assert(rest[i] == offers[i]);
    }
    lemma_cell_after_offers(f, rest, x, y);
    lemma_plotted_all_well_formed(f, rest);
    let prev = f.plotted_all(rest);
    let g = f.plotted_all(offers);
    assert(g == prev.plotted(o.x, o.y, o.depth, o.glyph));
    lemma_plot_only_brings_nearer(prev, o.x, o.y, o.depth, o.glyph);
    lemma_cell_in_range(f.width as int, f.height as int, x, y);
    assert forall|i: int| 0 <= i < n - 1 implies (offered_at(offers, i, x, y) == offered_at(
        rest,
        i,
        x,
        y,
    )) && rest[i] == offers[i] by {}
    if !(o.x == x && o.y == y) {
        assert(prev.in_bounds(x, y));
        assert(prev.plotted(o.x, o.y, o.depth, o.glyph).glyph(x, y) == prev.glyph(x, y));
        assert(g.depth(x, y) == prev.depth(x, y) && g.glyph(x, y) == prev.glyph(x, y));
        assert forall|i: int| #[trigger] offered_at(offers, i, x, y) implies {
            &&& g.depth(x, y) != NO_DEPTH
            &&& g.depth(x, y) <= offers[i].depth
        } by {
            assert(offered_at(rest, i, x, y));
        }
        if !(prev.depth(x, y) == f.depth(x, y) && prev.glyph(x, y) == f.glyph(x, y)) {
            let j = choose|j: int|
                {
                    &&& #[trigger] shows_through(f, rest, x, y, j)
                    &&& prev.depth(x, y) == rest[j].depth
                    &&& prev.glyph(x, y) == rest[j].glyph
                };
            assert(rest[j] == offers[j]);
            assert forall|i: int| #[trigger] offered_at(offers, i, x, y) implies offers[j].depth
                <= offers[i].depth by {
                assert(offered_at(rest, i, x, y));
            }
            assert forall|i: int| 0 <= i < j && #[trigger] offered_at(offers, i, x, y) implies offers[i].depth
                != offers[j].depth by {
                assert(offered_at(rest, i, x, y));
            }
            assert(shows_through(f, offers, x, y, j));
        }
    } else {
        let passes = prev.depth(x, y) == NO_DEPTH || o.depth < prev.depth(x, y);
        if passes {
            assert(g.depth(x, y) == o.depth && g.glyph(x, y) == o.glyph);
            assert forall|i: int| #[trigger] offered_at(offers, i, x, y) implies {
                &&& g.depth(x, y) != NO_DEPTH
                &&& g.depth(x, y) <= offers[i].depth
            } by {
                if i < n - 1 {
                    assert(offered_at(rest, i, x, y));
                }
            }
            assert forall|i: int| 0 <= i < n - 1 && #[trigger] offered_at(offers, i, x, y) implies offers[i].depth
                != offers[n - 1].depth by {
                assert(offered_at(rest, i, x, y));
            }
            assert(offered_at(offers, n - 1, x, y));
            assert(shows_through(f, offers, x, y, n - 1));
        } else {
            assert(g.depth(x, y) == prev.depth(x, y) && g.glyph(x, y) == prev.glyph(x, y));
            assert forall|i: int| #[trigger] offered_at(offers, i, x, y) implies {
                &&& g.depth(x, y) != NO_DEPTH
                &&& g.depth(x, y) <= offers[i].depth
            } by {
                if i < n - 1 {
                    assert(offered_at(rest, i, x, y));
                }
            }
            if !(prev.depth(x, y) == f.depth(x, y) && prev.glyph(x, y) == f.glyph(x, y)) {
                let j = choose|j: int|
                    {
                        &&& #[trigger] shows_through(f, rest, x, y, j)
                        &&& prev.depth(x, y) == rest[j].depth
                        &&& prev.glyph(x, y) == rest[j].glyph
                    };
                assert(rest[j] == offers[j]);
                assert forall|i: int| #[trigger] offered_at(offers, i, x, y) implies offers[j].depth
                    <= offers[i].depth by {
                    if i < n - 1 {
                        assert(offered_at(rest, i, x, y));
                    }
                }
                assert forall|i: int| 0 <= i < j && #[trigger] offered_at(offers, i, x, y) implies offers[i].depth
                    != offers[j].depth by {
                    assert(offered_at(rest, i, x, y));
                }
                assert(shows_through(f, offers, x, y, j));
            }
        }
    }
}

/// After any run of offers with a depth, each cell of the frame shows the
/// first nearest offer to it when that offer is nearer than what the cell
/// held, and otherwise keeps what it held; a cell that was offered anything
/// holds a depth no farther than any of its offers.
pub proof fn lemma_nearest_offer_shows(f: FrameView, offers: Seq<Offer>)
    requires
        f.well_formed(),
        forall|i: int| 0 <= i < offers.len() ==> #[trigger] offers[i].depth != NO_DEPTH,
    ensures
        f.plotted_all(offers).well_formed(),
        f.plotted_all(offers).width == f.width,
        f.plotted_all(offers).height == f.height,
        forall|x: int, y: int, j: int|
            f.in_bounds(x, y) && #[trigger] shows_through(f, offers, x, y, j) ==> {
                &&& f.plotted_all(offers).glyph(x, y) == offers[j].glyph
                &&& f.plotted_all(offers).depth(x, y) == offers[j].depth
            },
        forall|x: int, y: int|
            f.in_bounds(x, y) && (forall|j: int| !shows_through(f, offers, x, y, j)) ==> {
                &&& #[trigger] f.plotted_all(offers).glyph(x, y) == f.glyph(x, y)
                &&& f.plotted_all(offers).depth(x, y) == f.depth(x, y)
            },
        forall|x: int, y: int, i: int|
            f.in_bounds(x, y) && #[trigger] offered_at(offers, i, x, y) ==> {
                &&& f.plotted_all(offers).depth(x, y) != NO_DEPTH
                &&& f.plotted_all(offers).depth(x, y) <= offers[i].depth
            },
{
    let g = f.plotted_all(offers);
    lemma_plotted_all_well_formed(f, offers);
    assert forall|x: int, y: int, j: int|
        f.in_bounds(x, y) && #[trigger] shows_through(f, offers, x, y, j) implies {
        &&& g.glyph(x, y) == offers[j].glyph
        &&& g.depth(x, y) == offers[j].depth
    } by {
        lemma_cell_after_offers(f, offers, x, y);
        if g.depth(x, y) == f.depth(x, y) && g.glyph(x, y) == f.glyph(x, y) {
            assert(offered_at(offers, j, x, y));
        } else {
            let k = choose|k: int|
                {
                    &&& #[trigger] shows_through(f, offers, x, y, k)
                    &&& g.depth(x, y) == offers[k].depth
                    &&& g.glyph(x, y) == offers[k].glyph
                };
            assert(offered_at(offers, j, x, y) && offered_at(offers, k, x, y));
            if j < k {
                assert(offers[j].depth != offers[k].depth);
            } else if k < j {
                assert(offers[k].depth != offers[j].depth);
            }
        }
    }
    assert forall|x: int, y: int|
        f.in_bounds(x, y) && (forall|j: int| !shows_through(f, offers, x, y, j)) implies {
        &&& #[trigger] g.glyph(x, y) == f.glyph(x, y)
        &&& g.depth(x, y) == f.depth(x, y)
    } by {
        lemma_cell_after_offers(f, offers, x, y);
    }
    assert forall|x: int, y: int, i: int|
        f.in_bounds(x, y) && #[trigger] offered_at(offers, i, x, y) implies {
        &&& g.depth(x, y) != NO_DEPTH
        &&& g.depth(x, y) <= offers[i].depth
    } by {
        lemma_cell_after_offers(f, offers, x, y);
    }
}

/// After the frame is wiped and a run of offers with a depth is plotted,
/// each cell shows the first nearest offer to it, and a cell offered
/// nothing stays blank and without depth.
pub proof fn lemma_wiped_frame_shows_nearest_offer(f: FrameView, offers: Seq<Offer>)
    requires
        f.well_formed(),
        forall|i: int| 0 <= i < offers.len() ==> #[trigger] offers[i].depth != NO_DEPTH,
    ensures
        forall|x: int, y: int, i: int|
            f.in_bounds(x, y) && #[trigger] offered_at(offers, i, x, y) ==> exists|j: int|
                first_nearest_offer(offers, x, y, j),
        forall|x: int, y: int, j: int|
            f.in_bounds(x, y) && #[trigger] first_nearest_offer(offers, x, y, j) ==> {
                &&& f.cleared().plotted_all(offers).glyph(x, y) == offers[j].glyph
                &&& f.cleared().plotted_all(offers).depth(x, y) == offers[j].depth
            },
        forall|x: int, y: int|
            f.in_bounds(x, y) && (forall|i: int| !offered_at(offers, i, x, y)) ==> {
                &&& #[trigger] f.cleared().plotted_all(offers).glyph(x, y) == BLANK
                &&& f.cleared().plotted_all(offers).depth(x, y) == NO_DEPTH
            },
{
    let c = f.cleared();
    let g = c.plotted_all(offers);
    lemma_nearest_offer_shows(c, offers);
    assert forall|x: int, y: int, j: int|
        f.in_bounds(x, y) && #[trigger] first_nearest_offer(offers, x, y, j) implies {
        &&& g.glyph(x, y) == offers[j].glyph
        &&& g.depth(x, y) == offers[j].depth
    } by {
        lemma_cell_in_range(f.width as int, f.height as int, x, y);
        assert(c.in_bounds(x, y));
        assert(shows_through(c, offers, x, y, j));
    }
    assert forall|x: int, y: int|
        f.in_bounds(x, y) && (forall|i: int| !offered_at(offers, i, x, y)) implies {
        &&& #[trigger] g.glyph(x, y) == BLANK
        &&& g.depth(x, y) == NO_DEPTH
    } by {
        lemma_cell_in_range(f.width as int, f.height as int, x, y);
        assert(c.in_bounds(x, y));
        assert forall|j: int| !shows_through(c, offers, x, y, j) by {
            assert(!offered_at(offers, j, x, y));
        }
        assert(g.glyph(x, y) == c.glyph(x, y));
    }
    assert forall|x: int, y: int, i: int|
        f.in_bounds(x, y) && #[trigger] offered_at(offers, i, x, y) implies exists|j: int|
        first_nearest_offer(offers, x, y, j) by {
        lemma_cell_in_range(f.width as int, f.height as int, x, y);
        assert(c.in_bounds(x, y));
        assert(g.depth(x, y) != NO_DEPTH);
        assert(c.depth(x, y) == NO_DEPTH);
        if forall|j: int| !shows_through(c, offers, x, y, j) {
            assert(g.glyph(x, y) == c.glyph(x, y));
            assert(false);
        }
        let j = choose|j: int| shows_through(c, offers, x, y, j);
        assert(first_nearest_offer(offers, x, y, j));
    }
}

/// A blank frame shows no marks and holds no depths.
pub proof fn lemma_blank_frame_marks_match_depths(width: nat, height: nat)
    ensures
        blank_frame(width, height).marks_match_depths(),
        forall|i: int|
            0 <= i < blank_frame(width, height).depths.len() ==> (blank_frame(width, height).depths[i]
                != 0) == (blank_frame(width, height).glyphs[i] != ' '),
{
}

/// Plotting offers that each have a depth and a mark keeps the frame's
/// cells holding a depth exactly where they show a mark.
pub proof fn lemma_offers_keep_marks_matching_depths(f: FrameView, offers: Seq<Offer>)
    requires
        f.well_formed(),
        f.marks_match_depths(),
        forall|i: int|
            0 <= i < offers.len() ==> #[trigger] offers[i].depth != NO_DEPTH && offers[i].glyph
                != BLANK,
    ensures
        f.plotted_all(offers).marks_match_depths(),
        forall|i: int|
            0 <= i < f.plotted_all(offers).depths.len() ==> (f.plotted_all(offers).depths[i] != 0) == (
            f.plotted_all(offers).glyphs[i] != ' '),
    decreases offers.len(),
{
    lemma_plotted_all_well_formed(f, offers);
    if offers.len() > 0 {
        let rest = offers.drop_last();
        let o = offers.last();
        assert(o == offers[offers.len() - 1]);
        assert forall|i: int| 0 <= i < rest.len() implies #[trigger] rest[i].depth != NO_DEPTH
            && rest[i].glyph != BLANK by {
            assert(rest[i] == offers[i]);
        }
        lemma_offers_keep_marks_matching_depths(f, rest);
        lemma_plotted_all_well_formed(f, rest);
        let prev = f.plotted_all(rest);
        let g = prev.plotted(o.x, o.y, o.depth, o.glyph);
        if prev.in_bounds(o.x, o.y) && prev.passes_depth_test(o.x, o.y, o.depth) {
            lemma_cell_in_range(prev.width as int, prev.height as int, o.x, o.y);
            assert forall|i: int| 0 <= i < g.depths.len() implies (#[trigger] g.depths[i] != NO_DEPTH)
                == (g.glyphs[i] != BLANK) by {
                if i != prev.cell(o.x, o.y) {
                    assert(prev.depths[i] != NO_DEPTH == (prev.glyphs[i] != BLANK));
                }
            }
        }
    }
}

/// What one offer does to a frame. Inside the frame's rectangle, the cell
/// at position `y * width + x` takes the offer when it holds no depth or a
/// farther one; when it holds a depth no farther than the offer, nothing
/// changes. An offer outside the rectangle changes nothing. No other cell
/// ever changes, and the size stays.
pub proof fn lemma_plot_effect(f: FrameView, x: int, y: int, depth: u64, glyph: char)
    requires
        f.well_formed(),
    ensures
        ({
            let p = f.plotted(x, y, depth, glyph);
            let k = y * f.width + x;
            &&& p.width == f.width
            &&& p.height == f.height
            &&& p.glyphs.len() == f.glyphs.len()
            &&& p.depths.len() == f.depths.len()
            &&& (0 <= x < f.width && 0 <= y < f.height && (f.depths[k] == 0 || depth
                < f.depths[k])) ==> (p.glyphs[k] == glyph && p.depths[k] == depth)
            &&& (0 <= x < f.width && 0 <= y < f.height && f.depths[k] != 0 && f.depths[k]
                <= depth) ==> p == f
            &&& !(0 <= x < f.width && 0 <= y < f.height) ==> p == f
            &&& forall|i: int|
                0 <= i < f.glyphs.len() && i != k ==> p.glyphs[i] == f.glyphs[i] && p.depths[i]
                    == f.depths[i]
        }),
{
    if 0 <= x < f.width && 0 <= y < f.height {
        lemma_cell_in_range(f.width as int, f.height as int, x, y);
    }
}

/// A blank frame of `width` by `height` has, for each of its cells, a
/// space as glyph and a zero depth.
pub proof fn lemma_blank_frame_cells(width: nat, height: nat)
    ensures
        blank_frame(width, height).width == width,
        blank_frame(width, height).height == height,
        blank_frame(width, height).glyphs.len() == width * height,
        blank_frame(width, height).depths.len() == width * height,
        forall|i: int|
            0 <= i < width * height ==> blank_frame(width, height).glyphs[i] == ' '
                && blank_frame(width, height).depths[i] == 0,
{
}

/// Wiping keeps the frame's size and leaves a space and a zero depth in
/// every cell.
pub proof fn lemma_cleared_cells(f: FrameView)
    ensures
        f.cleared().width == f.width,
        f.cleared().height == f.height,
        f.cleared().glyphs.len() == f.width * f.height,
        f.cleared().depths.len() == f.width * f.height,
        forall|i: int|
            0 <= i < f.width * f.height ==> f.cleared().glyphs[i] == ' ' && f.cleared().depths[i]
                == 0,
{
    lemma_blank_frame_cells(f.width, f.height);
}

proof fn lemma_text_index_split(w: int, h: int, k: int)
    requires
        0 <= w,
        0 <= k < h * (w + 1),
    ensures
        0 <= k / (w + 1) < h,
        0 <= k % (w + 1) <= w,
        k == (k / (w + 1)) * (w + 1) + k % (w + 1),
{
    lemma_fundamental_div_mod(k, w + 1);
    lemma_mod_pos_bound(k, w + 1);
    lemma_mul_is_commutative(w + 1, k / (w + 1));
    if k / (w + 1) < 0 {
        lemma_mul_inequality(k / (w + 1), -1, w + 1);
    }
    if k / (w + 1) >= h {
        lemma_mul_inequality(h, k / (w + 1), w + 1);
    }
}

/// Character `k` of a frame's text: the text has `width + 1` characters per
/// row of the frame; the last character of each such line is a line break,
/// and character `c` of line `r` before it is the glyph at position
/// `r * width + c`.
pub proof fn lemma_text_cells(f: FrameView)
    requires
        f.well_formed(),
    ensures
        f.text().len() == f.height * (f.width + 1),
        forall|k: int|
            0 <= k < f.text().len() ==> #[trigger] f.text()[k] == (if k % (f.width + 1) as int
                == f.width {
                '\n'
            } else {
                f.glyphs[(k / (f.width + 1) as int) * f.width + k % (f.width + 1) as int]
            }),
{
    lemma_text_layout(f);
    let w = f.width as int;
    let h = f.height as int;
    assert forall|k: int| 0 <= k < f.text().len() implies #[trigger] f.text()[k] == (if k % (w + 1)
        == w {
        '\n'
    } else {
        f.glyphs[(k / (w + 1)) * w + k % (w + 1)]
    }) by {
        lemma_text_index_split(w, h, k);
        let r = k / (w + 1);
        let c = k % (w + 1);
        assert(f.text_position(c, r) == k);
        if c == w {
            assert(f.text()[f.text_position(w, r)] == '\n');
        } else {
            assert(f.in_bounds(c, r));
            assert(f.text()[f.text_position(c, r)] == f.glyph(c, r));
        }
    }
}

/// Plotting no offers leaves the frame as it is, and plotting a run of
/// offers followed by one more is plotting the run, then that offer.
pub proof fn lemma_plotted_all_step(f: FrameView, offers: Seq<Offer>, o: Offer)
    ensures
        f.plotted_all(Seq::empty()) == f,
        f.plotted_all(offers.push(o)) == f.plotted_all(offers).plotted(o.x, o.y, o.depth, o.glyph),
{
    assert(offers.push(o).drop_last() =~= offers);
}

} // verus!
