//! The board: a dense boolean matrix of fixed `x_size * y_size` plus an
//! explicit list of the live coordinates, kept in exact sync with the
//! matrix. Reads and writes accept any integer coordinates and normalize
//! them by toroidal wrap before touching storage.

use vstd::prelude::*;

verus! {

use vstd::arithmetic::div_mod::{
    lemma_fundamental_div_mod, lemma_mod_bound, lemma_mod_multiples_vanish, lemma_small_mod,
};
use vstd::pervasive::{unreached, VecAdditionalExecFns};

/// What `set(x, y, v)` does to the readable grid: the wrapped target cell
/// holds `v`, every other cell is untouched, and the dimensions and
/// well-formedness carry over.
pub open spec fn set_updates(pre: LifeBoard, post: LifeBoard, x: int, y: int, v: bool) -> bool {
    &&& post.wf()
    &&& post.x_size == pre.x_size
    &&& post.y_size == pre.y_size
    &&& forall|a: int, c: int|
        pre.in_range(a, c) ==> #[trigger] post.spec_get(a, c) == (if a == wrap_spec(
            x,
            pre.x_size as int,
        ) && c == wrap_spec(y, pre.y_size as int) {
            v
        } else {
            pre.spec_get(a, c)
        })
}

/// The one failure the board can report: a dimension of zero at construction.
#[derive(Clone, Copy, Debug, PartialEq, Eq, Structural)]
pub enum LifeError {
    InvalidDimensions,
}

/// Toroidal normalization of an arbitrary integer coordinate into `[0, n)`.
/// `%` on `int` is the Euclidean remainder, so for `n > 0` the result is
/// already the non-negative representative of `i` modulo `n`.
pub open spec fn wrap_spec(i: int, n: int) -> int {
    i % n
}

/// Wrapping twice is the same as wrapping once.
pub proof fn lemma_wrap_idempotent(i: int, n: int)
    requires
        0 < n,
    ensures
        wrap_spec(wrap_spec(i, n), n) == wrap_spec(i, n),
        0 <= wrap_spec(i, n) < n,
{
    lemma_mod_bound(i, n);
    lemma_small_mod((i % n) as nat, n as nat);
}

/// Adding an offset before or after wrapping reaches the same cell.
pub proof fn lemma_wrap_add(i: int, d: int, n: int)
    requires
        0 < n,
    ensures
        wrap_spec(wrap_spec(i, n) + d, n) == wrap_spec(i + d, n),
{
    lemma_fundamental_div_mod(i, n);
    let q = i / n;
    assert(i + d == n * q + (i % n + d));
    lemma_mod_multiples_vanish(q, i % n + d, n);
}

/// Wrap is periodic: shifting by any whole number of board widths is
/// invisible.
pub proof fn lemma_wrap_periodic(i: int, k: int, n: int)
    requires
        0 < n,
    ensures
        wrap_spec(i + k * n, n) == wrap_spec(i, n),
{
    assert(i + k * n == n * k + i);
    lemma_mod_multiples_vanish(k, i, n);
}

/// Executable toroidal wrap: the returned index is `i` modulo `max`,
/// non-negative, for any `isize` input (including very negative ones).
pub fn wrap(i: isize, max: usize) -> (r: usize)
    requires
        0 < max <= isize::MAX as usize,
    ensures
        r == wrap_spec(i as int, max as int),
        r < max,
{
    if i >= 0 {
        let r = (i as usize) % max;
        proof {
            lemma_mod_bound(i as int, max as int);
        }
        r
    } else {
        // mag == -(i as int); computed this way so that isize::MIN needs no
        // negation that would overflow.
        let mag: usize = ((-(i + 1)) as usize) + 1;
        let rem: usize = mag % max;
        proof {
            lemma_mod_bound(mag as int, max as int);
            lemma_fundamental_div_mod(mag as int, max as int);
            let mi = mag as int;
            let mx = max as int;
            let q = mi / mx;
            assert(mi == mx * q + rem);
            assert(i as int == -mi);
            if rem == 0 {
                assert(i as int == mx * (-q) + 0) by (nonlinear_arith)
                    requires
                        mi == mx * q + 0,
                        i as int == -mi,
                {}
                lemma_mod_multiples_vanish(-q, 0, mx);
                lemma_small_mod(0, max as nat);
            } else {
                assert(i as int == mx * (-q - 1) + (mx - rem)) by (nonlinear_arith)
                    requires
                        mi == mx * q + rem,
                        i as int == -mi,
                {}
                lemma_mod_multiples_vanish(-q - 1, mx - rem, mx);
                lemma_small_mod((max - rem) as nat, max as nat);
            }
        }
        if rem == 0 {
            0
        } else {
            max - rem
        }
    }
}

/// The board: `x_size * y_size` cells, row-major in `cells`, with `active`
/// listing exactly the live coordinates (each once). The only mutator is
/// `set`, which keeps the two views in lockstep.
#[derive(Debug)]
pub struct LifeBoard {
    pub x_size: usize,
    pub y_size: usize,
    pub cells: Vec<bool>,
    pub active: Vec<(usize, usize)>,
}

impl LifeBoard {
    /// Row-major linear index of an in-range coordinate pair.
    pub open spec fn lin(self, x: int, y: int) -> int {
        x + y * self.x_size
    }

    /// Whether `(x, y)` is a normalized (storage) coordinate.
    pub open spec fn in_range(self, x: int, y: int) -> bool {
        0 <= x < self.x_size && 0 <= y < self.y_size
    }

    /// The state of the cell at arbitrary integer coordinates, after
    /// toroidal wrap. This is the board's whole observable content.
    pub open spec fn spec_get(self, x: int, y: int) -> bool {
        self.cells@[self.lin(wrap_spec(x, self.x_size as int), wrap_spec(y, self.y_size as int))]
    }

    /// The dimension bounds every operation needs: positive sizes, the
    /// matrix addressable, and coordinates representable as `isize`.
    pub open spec fn dims_ok(self) -> bool {
        &&& 0 < self.x_size && 0 < self.y_size
        &&& self.x_size <= isize::MAX as usize
        &&& self.y_size <= isize::MAX as usize
        &&& self.x_size * self.y_size <= usize::MAX as int
    }

    /// The storage invariant: a matrix of exactly `x_size * y_size`
    /// flags, and a live list that holds exactly the in-range coordinates
    /// whose flag is set, each at most once.
    pub open spec fn inv(self) -> bool {
        &&& self.cells@.len() == self.x_size * self.y_size
        &&& forall|k: int|
            0 <= k < self.active@.len() ==> self.in_range(
                (#[trigger] self.active@[k]).0 as int,
                self.active@[k].1 as int,
            )
        &&& forall|x: usize, y: usize|
            self.in_range(x as int, y as int) ==> (self.cells@[self.lin(x as int, y as int)]
                <==> #[trigger] self.active@.contains((x, y)))
        &&& forall|k1: int, k2: int|
            0 <= k1 < k2 < self.active@.len() ==> self.active@[k1] != self.active@[k2]
    }

    /// Well-formedness of a board.
    pub open spec fn wf(self) -> bool {
        self.dims_ok() && self.inv()
    }

    /// The set of live coordinates, as the mathematical content of the board.
    pub open spec fn live_set(self) -> Set<(int, int)> {
        Set::new(|p: (int, int)| self.in_range(p.0, p.1) && self.spec_get(p.0, p.1))
    }

    /// `spec_get` reads only the wrapped coordinates: congruent coordinates
    /// reach the same cell.
    pub proof fn lemma_spec_get_congruent(self, x1: int, y1: int, x2: int, y2: int)
        requires
            wrap_spec(x1, self.x_size as int) == wrap_spec(x2, self.x_size as int),
            wrap_spec(y1, self.y_size as int) == wrap_spec(y2, self.y_size as int),
        ensures
            self.spec_get(x1, y1) == self.spec_get(x2, y2),
    {
    }

    /// In-range coordinates are left unchanged by the wrap.
    pub proof fn lemma_wrap_of_in_range(self, x: int, y: int)
        requires
            self.dims_ok(),
            self.in_range(x, y),
        ensures
            wrap_spec(x, self.x_size as int) == x,
            wrap_spec(y, self.y_size as int) == y,
    {
        lemma_small_mod(x as nat, self.x_size as nat);
        lemma_small_mod(y as nat, self.y_size as nat);
    }

    /// The linear index of an in-range coordinate lies inside the matrix.
    pub proof fn lemma_lin_bound(self, x: int, y: int)
        requires
            self.in_range(x, y),
        ensures
            0 <= self.lin(x, y) < self.x_size * self.y_size,
    {
        assert(0 <= x + y * self.x_size < self.x_size * self.y_size) by (nonlinear_arith)
            requires
                0 <= x < self.x_size,
                0 <= y < self.y_size,
        {}
    }

    /// Distinct in-range coordinates have distinct linear indices.
    pub proof fn lemma_lin_injective(self, x1: int, y1: int, x2: int, y2: int)
        requires
            self.in_range(x1, y1),
            self.in_range(x2, y2),
            self.lin(x1, y1) == self.lin(x2, y2),
        ensures
            x1 == x2 && y1 == y2,
    {
        assert(x1 == x2 && y1 == y2) by (nonlinear_arith)
            requires
                0 <= x1 < self.x_size,
                0 <= x2 < self.x_size,
                0 <= y1 < self.y_size,
                0 <= y2 < self.y_size,
                x1 + y1 * self.x_size == x2 + y2 * self.x_size,
        {}
    }

    /// Creates an all-dead board. Rejected if either dimension is zero.
    /// The dimension bounds in `requires` are machine limits only: the
    /// matrix must be addressable and coordinates must fit in `isize`.
    pub fn new(x: usize, y: usize) -> (r: Result<LifeBoard, LifeError>)
        requires
            x <= isize::MAX as usize,
            y <= isize::MAX as usize,
            x * y <= usize::MAX as int,
        ensures
            match r {
                Ok(b) => {
                    &&& x > 0 && y > 0
                    &&& b.wf()
                    &&& b.x_size == x && b.y_size == y
                    &&& forall|a: int, c: int| !b.spec_get(a, c)
                },
                Err(e) => e == LifeError::InvalidDimensions && (x == 0 || y == 0),
            },
    {
        if x == 0 || y == 0 {
            return Err(LifeError::InvalidDimensions);
        }
        let n = x * y;
        let mut cells: Vec<bool> = Vec::new();
        let mut i: usize = 0;
        while i < n
            invariant
                i <= n,
                cells@.len() == i,
                forall|j: int| 0 <= j < i ==> !cells@[j],
            decreases n - i,
        {
            cells.push(false);
            i = i + 1;
        }
        let b = LifeBoard { x_size: x, y_size: y, cells, active: Vec::new() };
        proof {
            assert forall|a: usize, c: usize| b.in_range(a as int, c as int) implies (b.cells@[b.lin(
                a as int,
                c as int,
            )] <==> b.active@.contains((a, c))) by {
                b.lemma_lin_bound(a as int, c as int);
            }
            assert forall|a: int, c: int| !b.spec_get(a, c) by {
                lemma_wrap_idempotent(a, b.x_size as int);
                lemma_wrap_idempotent(c, b.y_size as int);
                let wa = wrap_spec(a, b.x_size as int);
                let wc = wrap_spec(c, b.y_size as int);
                b.lemma_lin_bound(wa, wc);
            }
        }
        Ok(b)
    }

    /// Toroidal-wrapped read; any integer coordinates are valid.
    pub fn get(&self, x: isize, y: isize) -> (r: bool)
        requires
            self.wf(),
        ensures
            r == self.spec_get(x as int, y as int),
    {
        let wx = wrap(x, self.x_size);
        let wy = wrap(y, self.y_size);
        proof {
            self.lemma_lin_bound(wx as int, wy as int);
        }
        self.cells[wx + wy * self.x_size]
    }

    /// Position of a coordinate pair in the live list.
    fn find_active(&self, x: usize, y: usize) -> (k: usize)
        requires
            self.active@.contains((x, y)),
        ensures
            k < self.active@.len(),
            self.active@[k as int] == (x, y),
    {
        let n = self.active.len();
        let mut k: usize = 0;
        while k < n
            invariant
                n == self.active@.len(),
                k <= n,
                self.active@.contains((x, y)),
                forall|j: int| 0 <= j < k ==> self.active@[j] != (x, y),
            decreases n - k,
        {
            let p = self.active[k];
            if p.0 == x && p.1 == y {
                return k;
            }
            k = k + 1;
        }
        proof {
            let j = choose|j: int| 0 <= j < self.active@.len() && self.active@[j] == (x, y);
            assert(false);
        }
        unreached()
    }

    /// Toroidal-wrapped write. Only a real change touches storage: writing
    /// the value a cell already holds leaves the whole board, live list
    /// included, exactly as it was.
    pub fn set(&mut self, x: isize, y: isize, v: bool)
        requires
            old(self).wf(),
        ensures
            set_updates(*old(self), *final(self), x as int, y as int, v),
            old(self).spec_get(x as int, y as int) == v ==> *final(self) == *old(self),
    {
        let ghost pre = *self;
        let wx = wrap(x, self.x_size);
        let wy = wrap(y, self.y_size);
        proof {
            self.lemma_lin_bound(wx as int, wy as int);
            self.lemma_wrap_of_in_range(wx as int, wy as int);
        }
        let idx = wx + wy * self.x_size;
        if self.cells[idx] == v {
            return ;
        }
        if v {
            self.active.push((wx, wy));
        } else {
            let k = self.find_active(wx, wy);
            self.active.remove(k);
        }
        self.cells.set(idx, v);
        proof {
            self.lemma_set_reestablish(pre, wx, wy, idx, v);
        }
    }

    /// The whole correctness argument of `set`'s mutating branch: with the
    /// matrix updated at the target index and the live list adjusted, the
    /// invariant holds again and the grid changed at exactly one cell.
    proof fn lemma_set_reestablish(self, pre: LifeBoard, wx: usize, wy: usize, idx: usize, v: bool)
        requires
            pre.wf(),
            pre.in_range(wx as int, wy as int),
            idx == pre.lin(wx as int, wy as int),
            pre.cells@[idx as int] != v,
            self.x_size == pre.x_size,
            self.y_size == pre.y_size,
            self.cells@ == pre.cells@.update(idx as int, v),
            v ==> self.active@ == pre.active@.push((wx, wy)),
            !v ==> exists|k: int|
                0 <= k < pre.active@.len() && pre.active@[k] == (wx, wy) && self.active@
                    == pre.active@.remove(k),
        ensures
            set_updates(pre, self, wx as int, wy as int, v),
    {
        pre.lemma_wrap_of_in_range(wx as int, wy as int);
        pre.lemma_lin_bound(wx as int, wy as int);
        // Every entry of the new live list is in range.
        assert forall|k: int|
            0 <= k < self.active@.len() implies self.in_range(
            (#[trigger] self.active@[k]).0 as int,
            self.active@[k].1 as int,
        ) by {
            if v {
            } else {
                let r = choose|r: int|
                    0 <= r < pre.active@.len() && pre.active@[r] == (wx, wy) && self.active@
                        == pre.active@.remove(r);
                assert(self.active@[k] == if k < r {
                    pre.active@[k]
                } else {
                    pre.active@[k + 1]
                });
            }
        }
        // Membership in the new live list, expressed over the old one.
        assert forall|p: (usize, usize)| #[trigger]
            self.active@.contains(p) == (pre.active@.contains(p) != (p == (wx, wy))) by {
            self.lemma_membership_after_change(pre, wx, wy, idx, v, p);
        }
        // The two views agree again.
        assert forall|a: usize, c: usize|
            self.in_range(a as int, c as int) implies (self.cells@[self.lin(a as int, c as int)]
            <==> self.active@.contains((a, c))) by {
            pre.lemma_lin_bound(a as int, c as int);
            if !(a == wx && c == wy) && pre.lin(a as int, c as int) == pre.lin(
                wx as int,
                wy as int,
            ) {
                pre.lemma_lin_injective(a as int, c as int, wx as int, wy as int);
            }
        }
        // No entry occurs twice in the new live list.
        assert forall|k1: int, k2: int|
            0 <= k1 < k2 < self.active@.len() implies self.active@[k1] != self.active@[k2] by {
            if v {
                if k2 == pre.active@.len() {
                    assert(pre.active@[k1] != (wx, wy)) by {
                        assert(!pre.active@.contains((wx, wy)));
                    }
                }
            } else {
                let r = choose|r: int|
                    0 <= r < pre.active@.len() && pre.active@[r] == (wx, wy) && self.active@
                        == pre.active@.remove(r);
                let j1: int = if k1 < r {
                    k1
                } else {
                    k1 + 1
                };
                let j2: int = if k2 < r {
                    k2
                } else {
                    k2 + 1
                };
                assert(self.active@[k1] == pre.active@[j1]);
                assert(self.active@[k2] == pre.active@[j2]);
            }
        }
        // The grid changed at exactly the target cell.
        assert forall|a: int, c: int| pre.in_range(a, c) implies self.spec_get(a, c) == (if a == wx
            && c == wy {
            v
        } else {
            pre.spec_get(a, c)
        }) by {
            pre.lemma_wrap_of_in_range(a, c);
            pre.lemma_lin_bound(a, c);
            if !(a == wx && c == wy) && pre.lin(a, c) == pre.lin(wx as int, wy as int) {
                pre.lemma_lin_injective(a, c, wx as int, wy as int);
            }
        }
    }

    /// After a push of `(wx, wy)` (when turning a cell live) or the removal
    /// of its one occurrence (when turning it dead), membership in the live
    /// list toggles for the target pair and is unchanged for every other.
    proof fn lemma_membership_after_change(
        self,
        pre: LifeBoard,
        wx: usize,
        wy: usize,
        idx: usize,
        v: bool,
        p: (usize, usize),
    )
        requires
            pre.wf(),
            pre.in_range(wx as int, wy as int),
            idx == pre.lin(wx as int, wy as int),
            pre.cells@[idx as int] != v,
            v ==> self.active@ == pre.active@.push((wx, wy)),
            !v ==> exists|k: int|
                0 <= k < pre.active@.len() && pre.active@[k] == (wx, wy) && self.active@
                    == pre.active@.remove(k),
        ensures
            self.active@.contains(p) == (pre.active@.contains(p) != (p == (wx, wy))),
    {
        if v {
            // The target was dead, so it was not in the old list.
            assert(!pre.active@.contains((wx, wy)));
            if p == (wx, wy) {
                assert(self.active@[pre.active@.len() as int] == p);
                assert(self.active@.contains(p));
            } else {
                if pre.active@.contains(p) {
                    let j = choose|j: int|
                        0 <= j < pre.active@.len() && pre.active@[j] == p;
                    assert(self.active@[j] == p);
                }
                if self.active@.contains(p) {
                    let j = choose|j: int|
                        0 <= j < self.active@.len() && self.active@[j] == p;
                    assert(pre.active@[j] == p);
                }
            }
        } else {
            let r = choose|r: int|
                0 <= r < pre.active@.len() && pre.active@[r] == (wx, wy) && self.active@
                    == pre.active@.remove(r);
            if p == (wx, wy) {
                // The one occurrence is gone; a second one would break the
                // no-duplicates invariant.
                if self.active@.contains(p) {
                    let j = choose|j: int|
                        0 <= j < self.active@.len() && self.active@[j] == p;
                    let j0: int = if j < r {
                        j
                    } else {
                        j + 1
                    };
                    assert(pre.active@[j0] == p);
                    assert(false);
                }
                assert(pre.active@.contains(p));
            } else {
                if pre.active@.contains(p) {
                    let j = choose|j: int|
                        0 <= j < pre.active@.len() && pre.active@[j] == p;
                    let j1: int = if j < r {
                        j
                    } else {
                        j - 1
                    };
                    assert(self.active@[j1] == p);
                }
                if self.active@.contains(p) {
                    let j = choose|j: int|
                        0 <= j < self.active@.len() && self.active@[j] == p;
                    let j0: int = if j < r {
                        j
                    } else {
                        j + 1
                    };
                    assert(pre.active@[j0] == p);
                }
            }
        }
    }

    /// A snapshot of the live coordinates at call time: exactly the cells
    /// whose flag is set, each listed once.
    pub fn live_cells(&self) -> (r: Vec<(usize, usize)>)
        requires
            self.wf(),
        ensures
            forall|k: int|
                0 <= k < r@.len() ==> self.in_range(
                    (#[trigger] r@[k]).0 as int,
                    r@[k].1 as int,
                ) && self.spec_get(r@[k].0 as int, r@[k].1 as int),
            forall|x: usize, y: usize|
                self.in_range(x as int, y as int) && self.spec_get(x as int, y as int)
                    ==> #[trigger] r@.contains((x, y)),
            forall|k1: int, k2: int| 0 <= k1 < k2 < r@.len() ==> r@[k1] != r@[k2],
    {
        let n = self.active.len();
        let mut r: Vec<(usize, usize)> = Vec::new();
        let mut k: usize = 0;
        while k < n
            invariant
                n == self.active@.len(),
                k <= n,
                r@ =~= self.active@.subrange(0, k as int),
            decreases n - k,
        {
            let p = self.active[k];
            r.push(p);
            k = k + 1;
        }
        proof {
            assert(r@ =~= self.active@);
            assert forall|k: int|
                0 <= k < r@.len() implies self.in_range(
                (#[trigger] r@[k]).0 as int,
                r@[k].1 as int,
            ) && self.spec_get(r@[k].0 as int, r@[k].1 as int) by {
                let p = r@[k];
                assert(self.active@.contains(p));
                self.lemma_wrap_of_in_range(p.0 as int, p.1 as int);
            }
            assert forall|x: usize, y: usize|
                self.in_range(x as int, y as int) && self.spec_get(
                    x as int,
                    y as int,
                ) implies #[trigger] r@.contains((x, y)) by {
                self.lemma_wrap_of_in_range(x as int, y as int);
            }
        }
        r
    }

    /// The board is toroidal: reads are periodic in both directions, with
    /// period `x_size` horizontally and `y_size` vertically.
    pub proof fn lemma_get_periodic(self, x: int, y: int, kx: int, ky: int)
        requires
            self.dims_ok(),
        ensures
            self.spec_get(x + kx * self.x_size, y + ky * self.y_size) == self.spec_get(x, y),
    {
        lemma_wrap_periodic(x, kx, self.x_size as int);
        lemma_wrap_periodic(y, ky, self.y_size as int);
        self.lemma_spec_get_congruent(x + kx * self.x_size, y + ky * self.y_size, x, y);
    }

    /// Writing the same value twice is idempotent: the second write leaves
    /// every cell, and with it the live set, exactly as the first left it.
    /// (The executable `set` says more: a write of the value the cell
    /// already holds returns the board bit-for-bit unchanged.)
    pub proof fn lemma_set_idempotent(b0: LifeBoard, b1: LifeBoard, b2: LifeBoard, x: int, y: int, v: bool)
        requires
            b0.wf(),
            set_updates(b0, b1, x, y, v),
            set_updates(b1, b2, x, y, v),
        ensures
            forall|a: int, c: int| b1.in_range(a, c) ==> b2.spec_get(a, c) == b1.spec_get(a, c),
            b2.live_set() == b1.live_set(),
    {
        assert(b2.live_set() =~= b1.live_set());
    }
}

} // verus!
