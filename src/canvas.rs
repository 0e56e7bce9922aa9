use vstd::prelude::*;

verus! {

/// `h` rows of `w` pixels, each of them `fill`.
pub open spec fn filled<T>(w: nat, h: nat, fill: T) -> Seq<Seq<T>> {
    Seq::new(h, |y: int| Seq::new(w, |x: int| fill))
}

/// A width-by-height grid of pixels, stored row by row.
///
/// Its view is the sequence of its rows, top to bottom; `width` is the number
/// of pixels in each row, which the view alone cannot give when there are no
/// rows. Pixel access is bounds-checked through `requires`: a coordinate
/// outside the grid is a contract violation.
#[derive(Debug)]
pub struct Canvas<T> {
    w: usize,
    h: usize,
    px: Vec<T>,
}

impl<T> View for Canvas<T> {
    type V = Seq<Seq<T>>;

    closed spec fn view(&self) -> Seq<Seq<T>> {
        Seq::new(self.h as nat, |y: int| Seq::new(self.w as nat, |x: int| self.px@[y * self.w + x]))
    }
}

impl<T> Canvas<T> {
    #[verifier::type_invariant]
    spec fn stored_row_by_row(&self) -> bool {
        &&& self.px@.len() == self.w * self.h
        &&& self.w * self.h <= usize::MAX
    }

    /// The number of pixels in each row.
    pub closed spec fn width(&self) -> nat {
        self.w as nat
    }
}

impl<T: Copy> Canvas<T> {
    /// A canvas of `w` by `h` pixels, all of them `fill`.
    pub fn new(w: usize, h: usize, fill: T) -> (c: Self)
        requires
            w * h <= usize::MAX,
        ensures
            c.width() == w,
            c@ == filled(w as nat, h as nat, fill),
    {
        let total: usize = w * h;
        let mut px: Vec<T> = Vec::new();
        let mut k: usize = 0;
        while k < total
            invariant
                total == w * h,
                k <= total,
                px@.len() == k,
                forall|j: int| 0 <= j < k ==> #[trigger] px@[j] == fill,
            decreases total - k,
        {
            px.push(fill);
            k = k + 1;
        }
        let c = Canvas { w, h, px };
        assert forall|y: int| 0 <= y < h implies #[trigger] c@[y] =~= filled(
            w as nat,
            h as nat,
            fill,
        )[y] by {
            assert forall|x: int| 0 <= x < w implies c@[y][x] == fill by {
                lemma_pixel_index(w as int, h as int, x, y);
            }
        }
        assert(c@ =~= filled(w as nat, h as nat, fill));
        c
    }

    /// The number of pixels in each row.
    pub fn w(&self) -> (w: usize)
        ensures
            w == self.width(),
    {
        self.w
    }

    /// The number of rows.
    pub fn h(&self) -> (h: usize)
        ensures
            h == self@.len(),
    {
        self.h
    }

    /// The pixel in column `x` of row `y`.
    pub fn px(&self, x: usize, y: usize) -> (p: T)
        requires
            x < self.width(),
            y < self@.len(),
        ensures
            p == self@[y as int][x as int],
    {
        proof {
            use_type_invariant(self);
            lemma_pixel_index(self.w as int, self.h as int, x as int, y as int);
        }
        self.px[y * self.w + x]
    }

    /// Sets the pixel in column `x` of row `y` to `color`, leaving every other
    /// pixel as it was.
    pub fn write_px(&mut self, x: usize, y: usize, color: T)
        requires
            x < old(self).width(),
            y < old(self)@.len(),
        ensures
            final(self).width() == old(self).width(),
            final(self)@ == old(self)@.update(
                y as int,
                old(self)@[y as int].update(x as int, color),
            ),
    {
        let ghost before = self@;
        let mut taken = Canvas { w: 0, h: 0, px: Vec::new() };
        core::mem::swap(self, &mut taken);
        proof {
            use_type_invariant(&taken);
            lemma_pixel_index(taken.w as int, taken.h as int, x as int, y as int);
        }
        let Canvas { w, h, px: mut px } = taken;
        let k = y * w + x;
        px.set(k, color);
        *self = Canvas { w, h, px };
        proof {
            let after = self@;
            let want = before.update(y as int, before[y as int].update(x as int, color));
            assert forall|yy: int| 0 <= yy < self.h implies #[trigger] after[yy] =~= want[yy] by {
                assert forall|xx: int| 0 <= xx < self.w implies after[yy][xx] == want[yy][xx] by {
                    lemma_pixel_index(self.w as int, self.h as int, xx, yy);
                    if yy != y || xx != x {
                        assert(yy * self.w + xx != k) by (nonlinear_arith)
                            requires
                                0 <= xx < self.w,
                                0 <= x < self.w,
                                0 <= yy,
                                0 <= y,
                                yy != y || xx != x,
                                k == y * self.w + x,
                        ;
                    }
                }
            }
            assert(after =~= want);
        }
    }
}

impl<T: Copy> Clone for Canvas<T> {
    /// A pixel-by-pixel copy.
    fn clone(&self) -> (c: Self)
        ensures
            c@ == self@,
            c.width() == self.width(),
    {
        proof {
            use_type_invariant(self);
        }
        let total: usize = self.px.len();
        let mut px: Vec<T> = Vec::new();
        let mut k: usize = 0;
        while k < total
            invariant
                total == self.px@.len(),
                k <= total,
                px@ == self.px@.take(k as int),
            decreases total - k,
        {
            px.push(self.px[k]);
            proof {
                assert(self.px@.take(k + 1) =~= self.px@.take(k as int).push(self.px@[k as int]));
            }
            k = k + 1;
        }
        proof {
            assert(self.px@.take(total as int) =~= self.px@);
        }
        Canvas { w: self.w, h: self.h, px }
    }
}

/// Column `x` of row `y` of a `w`-by-`h` grid stored row by row sits at
/// `y * w + x`, inside the storage.
proof fn lemma_pixel_index(w: int, h: int, x: int, y: int)
    requires
        0 <= x < w,
        0 <= y < h,
    ensures
        0 <= y * w + x < w * h,
{
    assert(0 <= y * w + x < w * h) by (nonlinear_arith)
        requires
            0 <= x < w,
            0 <= y < h,
    ;
}

} // verus!
