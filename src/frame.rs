//! The frame assembler: it takes the pixels the workers send, in any order,
//! writes each into the raster once, and knows when the frame is complete.

use vstd::prelude::*;
use crate::color::Color;
use crate::raster::{Raster, frame_cells, new_raster, put_raster_pixel, raster_pixels};

verus! {

/// Why the assembler refused a pixel or the finished frame.
#[derive(Debug, Clone, Copy, PartialEq, Eq, Structural)]
pub enum FrameError {
    /// The pixel lies outside the frame.
    OutOfBounds,
    /// The pixel was already received.
    Duplicate,
    /// Fewer pixels were received than the frame holds.
    Incomplete,
}

/// The number of `true` entries.
pub open spec fn count_true(s: Seq<bool>) -> nat
    decreases s.len(),
{
    if s.len() == 0 {
        0
    } else {
        count_true(s.drop_last()) + if s.last() {
            1nat
        } else {
            0nat
        }
    }
}

proof fn lemma_count_true_bounded(s: Seq<bool>)
    ensures
        count_true(s) <= s.len(),
        count_true(s) == s.len() ==> forall|i: int| 0 <= i < s.len() ==> #[trigger] s[i],
    decreases s.len(),
{
    if s.len() > 0 {
        lemma_count_true_bounded(s.drop_last());
        if count_true(s) == s.len() {
            assert forall|i: int| 0 <= i < s.len() implies #[trigger] s[i] by {
                if i < s.len() - 1 {
                    assert(s.drop_last()[i] == s[i]);
                }
            }
        }
    }
}

proof fn lemma_count_true_set(s: Seq<bool>, i: int)
    requires
        0 <= i < s.len(),
        !s[i],
    ensures
        count_true(s.update(i, true)) == count_true(s) + 1,
    decreases s.len(),
{
    let t = s.update(i, true);
    if i == s.len() - 1 {
        assert(t.drop_last() =~= s.drop_last());
    } else {
        assert(t.drop_last() =~= s.drop_last().update(i, true));
        lemma_count_true_set(s.drop_last(), i);
    }
}

proof fn lemma_cell_index(x: int, y: int, x2: int, y2: int, width: int, height: int)
    requires
        0 <= x < width,
        0 <= y < height,
        0 <= x2 < width,
        0 <= y2 < height,
    ensures
        0 <= y * width + x < width * height,
        y * width + x == y2 * width + x2 ==> x == x2 && y == y2,
{
    assert(0 <= y * width + x < width * height) by (nonlinear_arith)
        requires
            0 <= x < width,
            0 <= y < height,
    ;
    if y * width + x == y2 * width + x2 {
        if y < y2 {
            assert(y * width + x < y2 * width + x2) by (nonlinear_arith)
                requires
                    y + 1 <= y2,
                    0 <= x < width,
                    0 <= x2,
            ;
        } else if y2 < y {
            assert(y2 * width + x2 < y * width + x) by (nonlinear_arith)
                requires
                    y2 + 1 <= y,
                    0 <= x2 < width,
                    0 <= x,
            ;
        }
    }
}

/// Collects the pixels of one `width` by `height` frame into its raster.
pub struct FrameAssembler {
    width: u32,
    height: u32,
    raster: Raster,
    filled: Vec<bool>,
    received: u64,
}

impl FrameAssembler {
    pub closed spec fn frame_width(&self) -> int {
        self.width as int
    }

    pub closed spec fn frame_height(&self) -> int {
        self.height as int
    }

    /// The raster as it stands, keyed by `(x, y)`.
    pub closed spec fn pixels(&self) -> Map<(int, int), Color> {
        raster_pixels(self.raster)
    }

    /// The cells received so far.
    pub closed spec fn written(&self) -> Set<(int, int)> {
        Set::new(
            |p: (int, int)|
                0 <= p.0 < self.width && 0 <= p.1 < self.height && self.filled@[p.1
                    * self.width + p.0],
        )
    }

    /// The number of pixels received so far.
    pub closed spec fn received_count(&self) -> int {
        self.received as int
    }

    pub closed spec fn wf(&self) -> bool {
        &&& 3 * self.width * self.height <= usize::MAX
        &&& self.filled@.len() == self.width * self.height
        &&& self.received == count_true(self.filled@)
        &&& raster_pixels(self.raster).dom() == frame_cells(self.width as int, self.height as int)
    }

    /// What holds of every well-formed assembler: the raster covers the
    /// frame, and no more pixels were received than it has cells.
    pub proof fn lemma_wf(&self)
        requires
            self.wf(),
        ensures
            self.pixels().dom() == frame_cells(self.frame_width(), self.frame_height()),
            self.written().subset_of(frame_cells(self.frame_width(), self.frame_height())),
            0 <= self.received_count() <= self.frame_width() * self.frame_height(),
    {
        lemma_count_true_bounded(self.filled@);
    }

    /// An empty frame: every pixel black and none received. The raster's
    /// three bytes per pixel, for one row and for the whole frame, must be
    /// addressable.
    pub fn new(width: u32, height: u32) -> (r: Self)
        requires
            3 * width <= usize::MAX,
            3 * width * height <= usize::MAX,
        ensures
            r.wf(),
            r.frame_width() == width,
            r.frame_height() == height,
            r.received_count() == 0,
            r.written() == Set::<(int, int)>::empty(),
            r.pixels() == Map::new(
                |p: (int, int)| frame_cells(width as int, height as int).contains(p),
                |p: (int, int)| (0u8, 0u8, 0u8),
            ),
    {
        assert(width * height <= usize::MAX) by (nonlinear_arith)
            requires
                3 * width * height <= usize::MAX,
        ;
        let n = width as usize * height as usize;
        let filled: Vec<bool> = vec![false; n];
        let r = FrameAssembler { width, height, raster: new_raster(width, height), filled, received: 0 };
        proof {
            assert(r.pixels().dom() =~= frame_cells(width as int, height as int));
            assert forall|p: (int, int)| !#[trigger] r.written().contains(p) by {
                if 0 <= p.0 < width && 0 <= p.1 < height {
                    lemma_cell_index(p.0, p.1, 0, 0, width as int, height as int);
                }
            }
            assert(r.written() =~= Set::<(int, int)>::empty());
            assert(count_true(filled@) == 0) by {
                lemma_count_true_bounded(filled@);
                lemma_count_all_false(filled@);
            }
        }
        r
    }

    /// Takes the pixel `(x, y)` with its colour. A pixel outside the frame,
    /// or one already received, is refused and changes nothing.
    pub fn accept(&mut self, x: u32, y: u32, color: Color) -> (r: Result<(), FrameError>)
        requires
            old(self).wf(),
        ensures
            final(self).wf(),
            final(self).frame_width() == old(self).frame_width(),
            final(self).frame_height() == old(self).frame_height(),
            !(x < old(self).frame_width() && y < old(self).frame_height()) ==> r == Err::<
                (),
                FrameError,
            >(FrameError::OutOfBounds) && *final(self) == *old(self),
            x < old(self).frame_width() && y < old(self).frame_height() && old(
                self,
            ).written().contains((x as int, y as int)) ==> r == Err::<(), FrameError>(
                FrameError::Duplicate,
            ) && *final(self) == *old(self),
            x < old(self).frame_width() && y < old(self).frame_height() && !old(
                self,
            ).written().contains((x as int, y as int)) ==> {
                &&& r == Ok::<(), FrameError>(())
                &&& final(self).pixels() == old(self).pixels().insert((x as int, y as int), color)
                &&& final(self).written() == old(self).written().insert((x as int, y as int))
                &&& final(self).received_count() == old(self).received_count() + 1
            },
    {
        if x >= self.width || y >= self.height {
            return Err(FrameError::OutOfBounds);
        }
        proof {
            lemma_cell_index(x as int, y as int, 0, 0, self.width as int, self.height as int);
            assert(self.width * self.height <= usize::MAX) by (nonlinear_arith)
                requires
                    3 * self.width * self.height <= usize::MAX,
            ;
        }
        let idx = y as usize * self.width as usize + x as usize;
        if self.filled[idx] {
            return Err(FrameError::Duplicate);
        }
        let ghost before = *self;
        put_raster_pixel(&mut self.raster, x, y, color);
        proof {
            lemma_count_true_set(self.filled@, idx as int);
            lemma_count_true_bounded(self.filled@.update(idx as int, true));
            assert(self.width * self.height <= u64::MAX) by (nonlinear_arith)
                requires
                    self.width <= u32::MAX,
                    self.height <= u32::MAX,
            ;
        }
        self.filled.set(idx, true);
        self.received = self.received + 1;
        proof {
            let w = self.width as int;
            let h = self.height as int;
            assert forall|p: (int, int)|
                #[trigger] self.written().contains(p) == before.written().insert(
                    (x as int, y as int),
                ).contains(p) by {
                if 0 <= p.0 < w && 0 <= p.1 < h {
                    lemma_cell_index(p.0, p.1, x as int, y as int, w, h);
                }
            }
            assert(self.written() =~= before.written().insert((x as int, y as int)));
            assert(self.pixels().dom() =~= before.pixels().dom());
        }
        Ok(())
    }

    /// The number of pixels received so far.
    pub fn received(&self) -> (r: u64)
        ensures
            r == self.received_count(),
    {
        self.received
    }

    /// Whether every pixel of the frame was received.
    pub fn is_complete(&self) -> (r: bool)
        requires
            self.wf(),
        ensures
            r == (self.received_count() == self.frame_width() * self.frame_height()),
    {
        proof {
            assert(self.width * self.height <= u64::MAX) by (nonlinear_arith)
                requires
                    self.width <= u32::MAX,
                    self.height <= u32::MAX,
            ;
        }
        self.received == self.width as u64 * self.height as u64
    }

    /// The finished raster, or `Incomplete` while pixels are missing.
    pub fn finish(self) -> (r: Result<Raster, FrameError>)
        requires
            self.wf(),
        ensures
            self.received_count() == self.frame_width() * self.frame_height() ==> (r matches Ok(
                img,
            ) && raster_pixels(img) == self.pixels()),
            self.received_count() != self.frame_width() * self.frame_height() ==> r == Err::<
                Raster,
                FrameError,
            >(FrameError::Incomplete),
    {
        if self.is_complete() {
            Ok(self.raster)
        } else {
            Err(FrameError::Incomplete)
        }
    }

    /// A frame is complete exactly when every one of its cells was received,
    /// each of them once: the count of received pixels reaches the number of
    /// cells only when none is missing.
    pub proof fn lemma_complete_iff_all_written(&self)
        requires
            self.wf(),
        ensures
            self.received_count() == self.frame_width() * self.frame_height() <==> self.written()
                == frame_cells(self.frame_width(), self.frame_height()),
    {
        let w = self.width as int;
        let h = self.height as int;
        lemma_count_true_bounded(self.filled@);
        if self.received_count() == w * h {
            assert forall|p: (int, int)| #[trigger]
                frame_cells(w, h).contains(p) implies self.written().contains(p) by {
                lemma_cell_index(p.0, p.1, 0, 0, w, h);
            }
            assert(self.written() =~= frame_cells(w, h));
        }
        if self.written() == frame_cells(w, h) {
            assert forall|i: int| 0 <= i < self.filled@.len() implies #[trigger] self.filled@[i] by {
                assert(w > 0) by (nonlinear_arith)
                    requires
                        0 <= i < w * h,
                        0 <= h,
                ;
                let p = (i % w, i / w);
                assert(0 <= p.0 < w && 0 <= p.1 < h && p.1 * w + p.0 == i) by (nonlinear_arith)
                    requires
                        0 <= i < w * h,
                        w > 0,
                        p == (i % w, i / w),
                ;
                assert(frame_cells(w, h).contains(p));
            }
            lemma_count_all_true(self.filled@);
        }
    }
}

proof fn lemma_count_all_false(s: Seq<bool>)
    requires
        forall|i: int| 0 <= i < s.len() ==> !#[trigger] s[i],
    ensures
        count_true(s) == 0,
    decreases s.len(),
{
    if s.len() > 0 {
        assert forall|i: int| 0 <= i < s.len() - 1 implies !#[trigger] s.drop_last()[i] by {
            assert(s.drop_last()[i] == s[i]);
        }
        lemma_count_all_false(s.drop_last());
    }
}

proof fn lemma_count_all_true(s: Seq<bool>)
    requires
        forall|i: int| 0 <= i < s.len() ==> #[trigger] s[i],
    ensures
        count_true(s) == s.len(),
    decreases s.len(),
{
    if s.len() > 0 {
        assert forall|i: int| 0 <= i < s.len() - 1 implies #[trigger] s.drop_last()[i] by {
            assert(s.drop_last()[i] == s[i]);
        }
        lemma_count_all_true(s.drop_last());
    }
}

/// The cell a sent pixel names.
pub open spec fn pixel_cell(p: (u32, u32, Color)) -> (int, int) {
    (p.0 as int, p.1 as int)
}

/// No two pixels of `s` name the same cell.
pub open spec fn distinct_cells(s: Seq<(u32, u32, Color)>) -> bool {
    forall|i: int, j: int|
        0 <= i < j < s.len() ==> pixel_cell(#[trigger] s[i]) != pixel_cell(#[trigger] s[j])
}

/// The raster `m` with the pixels of `s` written into it in turn, as
/// successful calls of `FrameAssembler::accept` write them.
pub open spec fn paint(m: Map<(int, int), Color>, s: Seq<(u32, u32, Color)>) -> Map<
    (int, int),
    Color,
>
    decreases s.len(),
{
    if s.len() == 0 {
        m
    } else {
        paint(m, s.drop_last()).insert(pixel_cell(s.last()), s.last().2)
    }
}

proof fn lemma_paint_at(m: Map<(int, int), Color>, s: Seq<(u32, u32, Color)>, p: (int, int))
    requires
        distinct_cells(s),
    ensures
        paint(m, s).dom().contains(p) <==> (m.dom().contains(p) || exists|i: int|
            0 <= i < s.len() && pixel_cell(#[trigger] s[i]) == p),
        forall|i: int|
            0 <= i < s.len() && pixel_cell(#[trigger] s[i]) == p ==> paint(m, s)[p] == s[i].2,
        (forall|i: int| 0 <= i < s.len() ==> pixel_cell(#[trigger] s[i]) != p) ==> paint(m, s)[p]
            == m[p],
    decreases s.len(),
{
    if s.len() > 0 {
        let t = s.drop_last();
        assert forall|i: int, j: int|
            0 <= i < j < t.len() implies pixel_cell(#[trigger] t[i]) != pixel_cell(
                #[trigger] t[j],
            ) by {
            assert(t[i] == s[i] && t[j] == s[j]);
        }
        lemma_paint_at(m, t, p);
        let n = s.len() - 1;
        if pixel_cell(s[n]) != p {
            assert forall|i: int|
                0 <= i < s.len() && pixel_cell(#[trigger] s[i]) == p implies 0 <= i < t.len()
                && pixel_cell(t[i]) == p by {}
            if exists|i: int| 0 <= i < s.len() && pixel_cell(#[trigger] s[i]) == p {
                let i = choose|i: int| 0 <= i < s.len() && pixel_cell(#[trigger] s[i]) == p;
                assert(pixel_cell(t[i]) == p);
            }
        } else {
            assert(pixel_cell(s[n]) == p);
        }
    }
}

/// The order in which the pixels arrive does not change the frame: two
/// sequences of the same pixels, neither naming a cell twice, paint the same
/// raster.
pub proof fn lemma_arrival_order_irrelevant(
    m: Map<(int, int), Color>,
    s1: Seq<(u32, u32, Color)>,
    s2: Seq<(u32, u32, Color)>,
)
    requires
        distinct_cells(s1),
        distinct_cells(s2),
        s1.to_set() == s2.to_set(),
    ensures
        paint(m, s1) == paint(m, s2),
{
    assert forall|p: (int, int)|
        #[trigger] paint(m, s1).dom().contains(p) == paint(m, s2).dom().contains(p) && (paint(
            m,
            s1,
        ).dom().contains(p) ==> paint(m, s1)[p] == paint(m, s2)[p]) by {
        lemma_paint_at(m, s1, p);
        lemma_paint_at(m, s2, p);
        if exists|i: int| 0 <= i < s1.len() && pixel_cell(#[trigger] s1[i]) == p {
            let i = choose|i: int| 0 <= i < s1.len() && pixel_cell(#[trigger] s1[i]) == p;
            assert(s1.to_set().contains(s1[i]));
            assert(s2.contains(s1[i]));
            let j = choose|j: int| 0 <= j < s2.len() && s2[j] == s1[i];
            assert(pixel_cell(s2[j]) == p);
        } else if exists|j: int| 0 <= j < s2.len() && pixel_cell(#[trigger] s2[j]) == p {
            let j = choose|j: int| 0 <= j < s2.len() && pixel_cell(#[trigger] s2[j]) == p;
            assert(s2.to_set().contains(s2[j]));
            assert(s1.contains(s2[j]));
            let i = choose|i: int| 0 <= i < s1.len() && s1[i] == s2[j];
            assert(pixel_cell(s1[i]) == p);
        }
    }
    assert(paint(m, s1) =~= paint(m, s2));
}

} // verus!
