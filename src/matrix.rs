use vstd::prelude::*;

use crate::float_eq::FloatEq;

verus! {

/// The rows of an `n`-by-`n` matrix stored row-major in `vals`.
pub open spec fn rows_of<T>(n: nat, vals: Seq<T>) -> Seq<Seq<T>> {
    Seq::new(n, |r: int| Seq::new(n, |c: int| vals[r * n + c]))
}

/// Every row has as many entries as there are rows.
pub open spec fn is_square<T>(m: Seq<Seq<T>>) -> bool {
    forall|r: int| 0 <= r < m.len() ==> #[trigger] m[r].len() == m.len()
}

/// The `n`-by-`n` matrix with `one` on the diagonal and `zero` elsewhere.
pub open spec fn identity_of<T>(n: nat, zero: T, one: T) -> Seq<Seq<T>> {
    Seq::new(n, |r: int| Seq::new(n, |c: int| if r == c { one } else { zero }))
}

/// Rows become columns.
pub open spec fn transpose_of<T>(m: Seq<Seq<T>>) -> Seq<Seq<T>> {
    Seq::new(m.len(), |r: int| Seq::new(m.len(), |c: int| m[c][r]))
}

/// The index in the full matrix of index `i` of a matrix with index `removed` left out.
pub open spec fn skip_index(i: int, removed: int) -> int {
    if i < removed {
        i
    } else {
        i + 1
    }
}

/// The matrix with row `rr` and column `rc` removed.
pub open spec fn submatrix_of<T>(m: Seq<Seq<T>>, rr: int, rc: int) -> Seq<Seq<T>> {
    Seq::new(
        (m.len() - 1) as nat,
        |r: int|
            Seq::new(
                (m.len() - 1) as nat,
                |c: int| m[skip_index(r, rr)][skip_index(c, rc)],
            ),
    )
}

/// A square matrix of any order, stored row-major.
///
/// Its view is the sequence of its rows. Entry access is bounds-checked
/// through `requires`: an index outside the order is a contract violation.
#[derive(Debug)]
pub struct BaseMatrix<T> {
    order: usize,
    vals: Vec<T>,
}

impl<T> View for BaseMatrix<T> {
    type V = Seq<Seq<T>>;

    closed spec fn view(&self) -> Seq<Seq<T>> {
        rows_of(self.order as nat, self.vals@)
    }
}

impl<T> BaseMatrix<T> {
    #[verifier::type_invariant]
    spec fn stored_row_major(&self) -> bool {
        &&& self.vals@.len() == self.order * self.order
        &&& self.order * self.order <= usize::MAX
    }
}

impl<T: Copy> BaseMatrix<T> {
    /// The matrix of the given order whose entries, row by row, are `vals`.
    pub fn new(order: usize, vals: Vec<T>) -> (m: Self)
        requires
            vals@.len() == order * order,
        ensures
            m@ == rows_of(order as nat, vals@),
    {
        // A vector's length is a `usize`, so the square of the order fits in one.
        let stored: usize = vals.len();
        proof {
            assert(stored == order * order);
        }
        BaseMatrix { order, vals }
    }

    /// The number of rows, which is also the number of columns.
    pub fn order(&self) -> (n: usize)
        ensures
            n == self@.len(),
    {
        self.order
    }

    /// The entry in row `r`, column `c`.
    pub fn get(&self, r: usize, c: usize) -> (v: T)
        requires
            r < self@.len(),
            c < self@.len(),
        ensures
            v == self@[r as int][c as int],
    {
        proof {
            use_type_invariant(self);
            lemma_grid_index(self.order as int, r as int, c as int);
        }
        self.vals[r * self.order + c]
    }

    /// The identity matrix of the given order, built from the element type's
    /// `zero` and `one`.
    pub fn identity(order: usize, zero: T, one: T) -> (m: Self)
        requires
            order * order <= usize::MAX,
        ensures
            m@ == identity_of(order as nat, zero, one),
    {
        let total: usize = order * order;
        let mut vals: Vec<T> = Vec::new();
        let mut k: usize = 0;
        while k < total
            invariant
                total == order * order,
                k <= total,
                vals@.len() == k,
                forall|j: int|
                    0 <= j < k ==> #[trigger] vals@[j] == if j / order as int == j % order as int {
                        one
                    } else {
                        zero
                    },
            decreases total - k,
        {
            proof {
                lemma_flat_index(order as int, k as int);
            }
            if k / order == k % order {
                vals.push(one);
            } else {
                vals.push(zero);
            }
            k = k + 1;
        }
        let m = BaseMatrix { order, vals };
        assert forall|r: int, c: int| 0 <= r < order && 0 <= c < order implies m@[r][c]
            == identity_of(order as nat, zero, one)[r][c] by {
            lemma_grid_index(order as int, r, c);
        }
        proof {
            lemma_same_grid(m@, identity_of(order as nat, zero, one));
        }
        m
    }

    /// The transposed matrix: row `r`, column `c` of the result is row `c`,
    /// column `r` of `self`.
    pub fn transpose(&self) -> (m: Self)
        ensures
            m@ == transpose_of(self@),
    {
        proof {
            use_type_invariant(self);
        }
        let order = self.order;
        let total: usize = self.vals.len();
        let mut vals: Vec<T> = Vec::new();
        let mut k: usize = 0;
        while k < total
            invariant
                order == self.order,
                total == order * order,
                self.vals@.len() == total,
                k <= total,
                vals@.len() == k,
                forall|j: int|
                    0 <= j < k ==> #[trigger] vals@[j] == self.vals@[(j % order as int) * order
                        + j / order as int],
            decreases total - k,
        {
            proof {
                lemma_flat_index(order as int, k as int);
                lemma_grid_index(order as int, k as int % order as int, k as int / order as int);
            }
            vals.push(self.vals[(k % order) * order + k / order]);
            k = k + 1;
        }
        let m = BaseMatrix { order, vals };
        assert forall|r: int, c: int| 0 <= r < order && 0 <= c < order implies m@[r][c]
            == transpose_of(self@)[r][c] by {
            lemma_grid_index(order as int, r, c);
        }
        proof {
            lemma_same_grid(m@, transpose_of(self@));
        }
        m
    }

    /// The matrix of order one less with row `remove_r` and column `remove_c`
    /// left out.
    pub fn submatrix(&self, remove_r: usize, remove_c: usize) -> (m: Self)
        requires
            remove_r < self@.len(),
            remove_c < self@.len(),
        ensures
            m@ == submatrix_of(self@, remove_r as int, remove_c as int),
    {
        proof {
            use_type_invariant(self);
        }
        let order = self.order;
        let smaller: usize = order - 1;
        proof {
            assert(smaller * smaller <= order * order) by (nonlinear_arith)
                requires
                    0 <= smaller < order,
            ;
        }
        let stored: usize = self.vals.len();
        let total: usize = smaller * smaller;
        let mut vals: Vec<T> = Vec::new();
        let mut k: usize = 0;
        while k < total
            invariant
                order == self.order,
                smaller + 1 == order,
                total == smaller * smaller,
                stored == order * order,
                self.vals@.len() == order * order,
                k <= total,
                vals@.len() == k,
                forall|j: int|
                    0 <= j < k ==> #[trigger] vals@[j] == self.vals@[skip_index(
                        j / smaller as int,
                        remove_r as int,
                    ) * order + skip_index(j % smaller as int, remove_c as int)],
            decreases total - k,
        {
            proof {
                lemma_flat_index(smaller as int, k as int);
            }
            let r = k / smaller;
            let c = k % smaller;
            let src_r = if r < remove_r {
                r
            } else {
                r + 1
            };
            let src_c = if c < remove_c {
                c
            } else {
                c + 1
            };
            proof {
                lemma_grid_index(order as int, src_r as int, src_c as int);
            }
            vals.push(self.vals[src_r * order + src_c]);
            k = k + 1;
        }
        let m = BaseMatrix { order: smaller, vals };
        let ghost want = submatrix_of(self@, remove_r as int, remove_c as int);
        assert forall|r: int, c: int| 0 <= r < smaller && 0 <= c < smaller implies m@[r][c]
            == want[r][c] by {
            lemma_grid_index(smaller as int, r, c);
            lemma_grid_index(order as int, skip_index(r, remove_r as int), skip_index(c, remove_c as int));
        }
        proof {
            lemma_same_grid(m@, want);
        }
        m
    }
}

impl<T: Copy> Clone for BaseMatrix<T> {
    /// An entry-by-entry copy.
    fn clone(&self) -> (m: Self)
        ensures
            m@ == self@,
    {
        proof {
            use_type_invariant(self);
        }
        let total: usize = self.vals.len();
        let mut vals: Vec<T> = Vec::new();
        let mut k: usize = 0;
        while k < total
            invariant
                total == self.vals@.len(),
                k <= total,
                vals@ == self.vals@.take(k as int),
            decreases total - k,
        {
            vals.push(self.vals[k]);
            proof {
                assert(self.vals@.take(k + 1) =~= self.vals@.take(k as int).push(self.vals@[k as int]));
            }
            k = k + 1;
        }
        proof {
            assert(self.vals@.take(total as int) =~= self.vals@);
        }
        BaseMatrix { order: self.order, vals }
    }
}

impl<T: FloatEq + Copy> FloatEq for BaseMatrix<T> {
    /// Same order, and every entry is tolerantly equal to the entry in the
    /// same place.
    open spec fn float_eq_spec(&self, other: &Self) -> bool {
        &&& self@.len() == other@.len()
        &&& forall|r: int, c: int|
            0 <= r < self@.len() && 0 <= c < self@.len() ==> #[trigger] self@[r][c].float_eq_spec(
                &other@[r][c],
            )
    }

    fn float_eq(&self, other: &Self) -> (same: bool) {
        proof {
            use_type_invariant(self);
            use_type_invariant(other);
        }
        if self.order != other.order {
            return false;
        }
        let order = self.order;
        let total: usize = self.vals.len();
        let mut k: usize = 0;
        while k < total
            invariant
                order == self.order,
                order == other.order,
                total == order * order,
                self.vals@.len() == total,
                other.vals@.len() == total,
                k <= total,
                forall|j: int|
                    0 <= j < k ==> #[trigger] self.vals@[j].float_eq_spec(&other.vals@[j]),
            decreases total - k,
        {
            if !self.vals[k].float_eq(&other.vals[k]) {
                proof {
                    lemma_flat_index(order as int, k as int);
                    let r = k as int / order as int;
                    let c = k as int % order as int;
                    assert(self@[r][c] == self.vals@[k as int]);
                    assert(other@[r][c] == other.vals@[k as int]);
                    assert(!self@[r][c].float_eq_spec(&other@[r][c]));
                }
                return false;
            }
            k = k + 1;
        }
        assert forall|r: int, c: int| 0 <= r < self@.len() && 0 <= c < self@.len() implies #[trigger] self@[r][c].float_eq_spec(&other@[r][c]) by {
            lemma_grid_index(order as int, r, c);
            assert(self.vals@[r * order + c].float_eq_spec(&other.vals@[r * order + c]));
        }
        true
    }
}

/// Index `k` of a row-major `n`-by-`n` layout is row `k / n`, column `k % n`.
proof fn lemma_flat_index(n: int, k: int)
    requires
        0 <= n,
        0 <= k < n * n,
    ensures
        n > 0,
        0 <= k / n < n,
        0 <= k % n < n,
        k == (k / n) * n + k % n,
{
    vstd::arithmetic::div_mod::lemma_fundamental_div_mod(k, n);
    assert(0 <= k % n < n);
    assert(n * (k / n) == (k / n) * n) by (nonlinear_arith);
    assert(0 <= k / n < n) by (nonlinear_arith)
        requires
            n > 0,
            0 <= k < n * n,
            0 <= k % n < n,
            k == n * (k / n) + k % n,
    ;
}

/// Row `r`, column `c` of a row-major `n`-by-`n` layout is stored at
/// `r * n + c`, and that index leads back to the row and column.
proof fn lemma_grid_index(n: int, r: int, c: int)
    requires
        0 <= r < n,
        0 <= c < n,
    ensures
        0 <= r * n + c < n * n,
        (r * n + c) / n == r,
        (r * n + c) % n == c,
{
    assert(r * n + c < n * n) by (nonlinear_arith)
        requires
            0 <= r < n,
            0 <= c < n,
    ;
    assert(0 <= r * n) by (nonlinear_arith)
        requires
            0 <= r,
            0 <= n,
    ;
    vstd::arithmetic::div_mod::lemma_fundamental_div_mod_converse(r * n + c, n, r, c);
}

/// Two square grids with the same order and the same entries are equal.
proof fn lemma_same_grid<T>(a: Seq<Seq<T>>, b: Seq<Seq<T>>)
    requires
        is_square(a),
        is_square(b),
        a.len() == b.len(),
        forall|r: int, c: int| 0 <= r < a.len() && 0 <= c < a.len() ==> a[r][c] == b[r][c],
    ensures
        a == b,
{
    assert forall|r: int| 0 <= r < a.len() implies a[r] == b[r] by {
        assert(a[r] =~= b[r]);
    }
    assert(a =~= b);
}

} // verus!
