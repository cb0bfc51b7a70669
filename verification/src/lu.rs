//! The Doolittle factorization engine, without pivoting.
//!
//! The engine is a machine that walks the classic schedule -- for each pivot
//! i, first the row U[i][i..], then the column L[i..][i] -- and asks its
//! caller to carry out one binary64 operation at a time on bit patterns:
//! a fused `x - y*z` update, or the final division by the pivot.  The caller
//! runs `pending` / `supply` until `pending` returns `None`, then takes the
//! factors with `finish`.  Every decision -- which entry is computed from
//! which operands, in which order, and where results land -- is verified;
//! the arithmetic itself is the caller's, so a zero pivot flows through as
//! whatever the division produced (non-finite patterns included), exactly as
//! the schedule dictates, and is never detected or rejected here.

use vstd::prelude::*;

use crate::matrix::{is_square, zero_bits, Matrix};

verus! {

/// One binary64 operation the engine asks its driver to perform, on bit
/// patterns: `MulSub` stands for `x - y*z`, `Div` for `num / den`.
#[derive(Clone, Copy, Debug, PartialEq, Eq, Structural)]
pub enum LuOp {
    MulSub { x: u64, y: u64, z: u64 },
    Div { num: u64, den: u64 },
}

/// Where the machine stands: filling a row of U, filling a column of L, or
/// finished.
#[derive(Clone, Copy, Debug, PartialEq, Eq, Structural)]
pub enum LuStage {
    Upper,
    Lower,
    Done,
}

/// An in-flight factorization: the input grid, the two factors under
/// construction, and the position of the entry being computed.
pub struct LuMachine {
    a: Matrix,
    l: Matrix,
    u: Matrix,
    i: usize,
    j: usize,
    k: usize,
    stage: LuStage,
}

/// How many operation results the pivots from `p` on still need, on an
/// n-by-n grid: for pivot q, one per update of its U row and its L column,
/// and one division per L entry.
pub open spec fn pivots_ops(n: int, p: int) -> int
    decreases n - p,
{
    if p < 0 || p >= n {
        0
    } else {
        (n - p) * p + (n - p) * (p + 1) + pivots_ops(n, p + 1)
    }
}

/// The remaining-operations count of the pivots is never negative.
proof fn lemma_pivots_nonneg(n: int, p: int)
    requires
        p >= 0,
    ensures
        pivots_ops(n, p) >= 0,
    decreases n - p,
{
    if 0 <= p < n {
        lemma_pivots_nonneg(n, p + 1);
        assert((n - p) * p >= 0 && (n - p) * (p + 1) >= 0) by (nonlinear_arith)
            requires
                0 <= p < n;
    }
}

/// A machine never owes a negative number of operations, and owes none
/// exactly when it no longer asks for any.
pub proof fn lemma_steps_positive(m: &LuMachine)
    requires
        m.wf(),
    ensures
        m.steps_left() >= 0,
        m.steps_left() == 0 <==> m.spec_pending() is None,
{
    let n = m.dim() as int;
    let i = m.pivot();
    let j = m.cell();
    let k = m.term();
    match m.phase() {
        LuStage::Done => {
        },
        LuStage::Upper => {
            lemma_pivots_nonneg(n, i + 1);
            assert((n - 1 - j) * i >= 0 && (n - i) * (i + 1) >= 0) by (nonlinear_arith)
                requires
                    1 <= i <= j < n;
        },
        LuStage::Lower => {
            lemma_pivots_nonneg(n, i + 1);
            assert((n - 1 - j) * (i + 1) >= 0) by (nonlinear_arith)
                requires
                    0 <= i <= j < n;
        },
    }
}

/// No entry strictly above the diagonal: the shape of L.
pub open spec fn strictly_upper_zero(g: Seq<Seq<u64>>) -> bool {
    forall|r: int, c: int| 0 <= r < g.len() && r < c < g.len() ==> #[trigger] g[r][c] == zero_bits()
}

/// No entry strictly below the diagonal: the shape of U.
pub open spec fn strictly_lower_zero(g: Seq<Seq<u64>>) -> bool {
    forall|r: int, c: int| 0 <= c < g.len() && c < r < g.len() ==> #[trigger] g[r][c] == zero_bits()
}

impl LuMachine {
    /// The input grid A.
    pub closed spec fn input(&self) -> Seq<Seq<u64>> {
        self.a@
    }

    /// The lower factor L as built so far.
    pub closed spec fn lower(&self) -> Seq<Seq<u64>> {
        self.l@
    }

    /// The upper factor U as built so far.
    pub closed spec fn upper(&self) -> Seq<Seq<u64>> {
        self.u@
    }

    /// The dimension n.
    pub closed spec fn dim(&self) -> nat {
        self.a.spec_n()
    }

    /// The current stage.
    pub closed spec fn phase(&self) -> LuStage {
        self.stage
    }

    /// The pivot index i.
    pub closed spec fn pivot(&self) -> int {
        self.i as int
    }

    /// The index of the entry being filled: column j of U's row i, or row j
    /// of L's column i.
    pub closed spec fn cell(&self) -> int {
        self.j as int
    }

    /// How many `x - y*z` updates the current entry has already absorbed.
    pub closed spec fn term(&self) -> int {
        self.k as int
    }

    /// How many operation results the schedule still needs: `supply` lowers
    /// it by exactly one, and it is zero exactly when the machine is done,
    /// so no driver loops forever.
    pub open spec fn steps_left(&self) -> int {
        let n = self.dim() as int;
        let i = self.pivot();
        let j = self.cell();
        let k = self.term();
        match self.phase() {
            LuStage::Done => 0,
            LuStage::Upper => (i - k) + (n - 1 - j) * i + (n - i) * (i + 1) + pivots_ops(n, i + 1),
            LuStage::Lower => (i + 1 - k) + (n - 1 - j) * (i + 1) + pivots_ops(n, i + 1),
        }
    }

    /// The machine's invariant: square grids of one dimension, both factors
    /// triangular in shape, and the position within the schedule's bounds.
    pub open spec fn wf(&self) -> bool {
        &&& is_square(self.input())
        &&& is_square(self.lower())
        &&& is_square(self.upper())
        &&& self.lower().len() == self.dim()
        &&& self.upper().len() == self.dim()
        &&& strictly_upper_zero(self.lower())
        &&& strictly_lower_zero(self.upper())
        &&& match self.phase() {
            LuStage::Upper => 1 <= self.pivot() <= self.cell() < self.dim() && 0 <= self.term()
                < self.pivot(),
            LuStage::Lower => 0 <= self.pivot() <= self.cell() < self.dim() && 0 <= self.term()
                <= self.pivot(),
            LuStage::Done => self.pivot() == self.dim() || self.dim() == 0,
        }
    }

    /// The operation the driver must perform next, `None` once the schedule
    /// is complete.
    pub open spec fn spec_pending(&self) -> Option<LuOp> {
        match self.phase() {
            LuStage::Done => None,
            LuStage::Upper => Some(
                LuOp::MulSub {
                    x: self.upper()[self.pivot()][self.cell()],
                    y: self.lower()[self.pivot()][self.term()],
                    z: self.upper()[self.term()][self.cell()],
                },
            ),
            LuStage::Lower => if self.term() < self.pivot() {
                Some(
                    LuOp::MulSub {
                        x: self.lower()[self.cell()][self.pivot()],
                        y: self.lower()[self.cell()][self.term()],
                        z: self.upper()[self.term()][self.pivot()],
                    },
                )
            } else {
                Some(
                    LuOp::Div {
                        num: self.lower()[self.cell()][self.pivot()],
                        den: self.upper()[self.pivot()][self.pivot()],
                    },
                )
            },
        }
    }

    /// The operation the driver must perform next, `None` once the schedule
    /// is complete.
    pub fn pending(&self) -> (r: Option<LuOp>)
        requires
            self.wf(),
        ensures
            r == self.spec_pending(),
    {
        match self.stage {
            LuStage::Done => None,
            LuStage::Upper => Some(
                LuOp::MulSub {
                    x: self.u.get(self.i, self.j),
                    y: self.l.get(self.i, self.k),
                    z: self.u.get(self.k, self.j),
                },
            ),
            LuStage::Lower => if self.k < self.i {
                Some(
                    LuOp::MulSub {
                        x: self.l.get(self.j, self.i),
                        y: self.l.get(self.j, self.k),
                        z: self.u.get(self.k, self.i),
                    },
                )
            } else {
                Some(LuOp::Div { num: self.l.get(self.j, self.i), den: self.u.get(self.i, self.i) })
            },
        }
    }

    /// Feeds the machine the result of the pending operation and moves it to
    /// the next entry of the schedule.
    pub fn supply(&mut self, r: u64)
        requires
            old(self).wf(),
            old(self).spec_pending() is Some,
        ensures
            final(self).wf(),
            lu_step(*old(self), r, *final(self)),
            final(self).steps_left() == old(self).steps_left() - 1,
    {
        let ghost n0 = self.dim() as int;
        let ghost i0 = self.pivot();
        let ghost j0 = self.cell();
        let n = self.a.n();
        match self.stage {
            LuStage::Done => {
                proof {
                    assert(false);
                }
            },
            LuStage::Upper => {
                proof {
                    lemma_write_keeps_shape(self.u@, self.i as int, self.j as int, r);
                }
                self.u.set(self.i, self.j, r);
                if self.k + 1 < self.i {
                    self.k = self.k + 1;
                } else if self.j + 1 < n {
                    self.j = self.j + 1;
                    self.k = 0;
                    let v = self.a.get(self.i, self.j);
                    proof {
                        lemma_write_keeps_shape(self.u@, self.i as int, self.j as int, v);
                        assert((n0 - 1 - j0) * i0 == (n0 - 2 - j0) * i0 + i0) by (nonlinear_arith);
                    }
                    self.u.set(self.i, self.j, v);
                } else {
                    self.stage = LuStage::Lower;
                    self.j = self.i;
                    self.k = 0;
                    let v = self.a.get(self.j, self.i);
                    proof {
                        lemma_write_keeps_shape(self.l@, self.j as int, self.i as int, v);
                        assert((n0 - 1 - j0) * i0 == 0) by (nonlinear_arith)
                            requires
                                j0 == n0 - 1;
                        assert((n0 - i0) * (i0 + 1) == (n0 - 1 - i0) * (i0 + 1) + (i0 + 1))
                            by (nonlinear_arith);
                    }
                    self.l.set(self.j, self.i, v);
                }
            },
            LuStage::Lower => {
                proof {
                    lemma_write_keeps_shape(self.l@, self.j as int, self.i as int, r);
                }
                self.l.set(self.j, self.i, r);
                if self.k < self.i {
                    self.k = self.k + 1;
                } else if self.j + 1 < n {
                    self.j = self.j + 1;
                    self.k = 0;
                    let v = self.a.get(self.j, self.i);
                    proof {
                        lemma_write_keeps_shape(self.l@, self.j as int, self.i as int, v);
                        assert((n0 - 1 - j0) * (i0 + 1) == (n0 - 2 - j0) * (i0 + 1) + (i0 + 1))
                            by (nonlinear_arith);
                    }
                    self.l.set(self.j, self.i, v);
                } else if self.i + 1 < n {
                    self.i = self.i + 1;
                    self.j = self.i;
                    self.k = 0;
                    self.stage = LuStage::Upper;
                    let v = self.a.get(self.i, self.j);
                    proof {
                        lemma_write_keeps_shape(self.u@, self.i as int, self.j as int, v);
                        assert((n0 - 1 - j0) * (i0 + 1) == 0) by (nonlinear_arith)
                            requires
                                j0 == n0 - 1;
                        assert(pivots_ops(n0, i0 + 1) == (n0 - i0 - 1) * (i0 + 1) + (n0 - i0 - 1)
                            * (i0 + 2) + pivots_ops(n0, i0 + 2));
                        assert((n0 - i0 - 1) * (i0 + 1) == (n0 - i0 - 2) * (i0 + 1) + (i0 + 1))
                            by (nonlinear_arith);
                        assert((n0 - 1 - (i0 + 1)) * (i0 + 1) == (n0 - i0 - 2) * (i0 + 1))
                            by (nonlinear_arith);
                        assert((n0 - (i0 + 1)) * (i0 + 2) == (n0 - i0 - 1) * (i0 + 2))
                            by (nonlinear_arith);
                    }
                    self.u.set(self.i, self.j, v);
                } else {
                    self.i = self.i + 1;
                    self.stage = LuStage::Done;
                    proof {
                        assert((n0 - 1 - j0) * (i0 + 1) == 0) by (nonlinear_arith)
                            requires
                                j0 == n0 - 1;
                        assert(pivots_ops(n0, i0 + 1) == 0);
                    }
                }
            },
        }
    }

    /// Hands out the two factors once the schedule is complete.  L carries
    /// zeros strictly above its diagonal and U zeros strictly below: the
    /// triangular shapes are guaranteed whatever operation results the
    /// driver supplied.
    pub fn finish(self) -> (r: (Matrix, Matrix))
        requires
            self.wf(),
            self.spec_pending() is None,
        ensures
            r.0.wf(),
            r.1.wf(),
            r.0@ == self.lower(),
            r.1@ == self.upper(),
            r.0.spec_n() == self.dim(),
            r.1.spec_n() == self.dim(),
            strictly_upper_zero(r.0@),
            strictly_lower_zero(r.1@),
    {
        (self.l, self.u)
    }
}

/// The exact transition the machine takes when the pending operation's
/// result `r` is supplied in state `pre`: where `r` is stored, which entry
/// is staged next from the input grid, and how the position advances.
pub open spec fn lu_step(pre: LuMachine, r: u64, post: LuMachine) -> bool {
    let n = pre.dim();
    let i = pre.pivot();
    let j = pre.cell();
    let k = pre.term();
    &&& post.input() == pre.input()
    &&& post.dim() == n
    &&& match pre.phase() {
        LuStage::Done => false,
        LuStage::Upper => {
            let u1 = pre.upper().update(i, pre.upper()[i].update(j, r));
            &&& if k + 1 < i {
                &&& post.upper() == u1
                &&& post.lower() == pre.lower()
                &&& post.phase() is Upper
                &&& post.pivot() == i && post.cell() == j && post.term() == k + 1
            } else if j + 1 < n {
                &&& post.upper() == u1.update(i, u1[i].update(j + 1, pre.input()[i][j + 1]))
                &&& post.lower() == pre.lower()
                &&& post.phase() is Upper
                &&& post.pivot() == i && post.cell() == j + 1 && post.term() == 0
            } else {
                &&& post.upper() == u1
                &&& post.lower() == pre.lower().update(
                    i,
                    pre.lower()[i].update(i, pre.input()[i][i]),
                )
                &&& post.phase() is Lower
                &&& post.pivot() == i && post.cell() == i && post.term() == 0
            }
        },
        LuStage::Lower => {
            let l1 = pre.lower().update(j, pre.lower()[j].update(i, r));
            &&& if k < i {
                &&& post.lower() == l1
                &&& post.upper() == pre.upper()
                &&& post.phase() is Lower
                &&& post.pivot() == i && post.cell() == j && post.term() == k + 1
            } else if j + 1 < n {
                &&& post.lower() == l1.update(j + 1, l1[j + 1].update(i, pre.input()[j + 1][i]))
                &&& post.upper() == pre.upper()
                &&& post.phase() is Lower
                &&& post.pivot() == i && post.cell() == j + 1 && post.term() == 0
            } else if i + 1 < n {
                &&& post.lower() == l1
                &&& post.upper() == pre.upper().update(
                    i + 1,
                    pre.upper()[i + 1].update(i + 1, pre.input()[i + 1][i + 1]),
                )
                &&& post.phase() is Upper
                &&& post.pivot() == i + 1 && post.cell() == i + 1 && post.term() == 0
            } else {
                &&& post.lower() == l1
                &&& post.upper() == pre.upper()
                &&& post.phase() is Done
            }
        },
    }
}

/// One step of a driven run: the machine owed an operation, the value fed
/// back is one the driver can answer that operation with, and the machine
/// moved exactly as [`lu_step`] dictates.
pub open spec fn lu_trace_step<F: Fn(LuOp) -> u64>(
    f: F,
    pre: LuMachine,
    v: u64,
    post: LuMachine,
) -> bool {
    &&& pre.wf()
    &&& match pre.spec_pending() {
        Some(op) => call_ensures(f, (op,), v),
        None => false,
    }
    &&& lu_step(pre, v, post)
}

/// A complete driven run on input `a`: it begins as [`lu_start`] says, each
/// supplied value is an answer of the driver `f` to the operation owed at
/// that point, each transition is exactly [`lu_step`], and the final state
/// owes nothing.
pub open spec fn lu_run_trace<F: Fn(LuOp) -> u64>(
    a: Seq<Seq<u64>>,
    f: F,
    states: Seq<LuMachine>,
    vals: Seq<u64>,
) -> bool {
    &&& states.len() == vals.len() + 1
    &&& lu_start(a, states[0])
    &&& forall|t: int|
        0 <= t < vals.len() ==> #[trigger] lu_trace_step(f, states[t], vals[t], states[t + 1])
    &&& states.last().spec_pending() is None
}

/// A single write preserves squareness, and each triangular shape whose
/// zero region the write stays out of.
proof fn lemma_write_keeps_shape(g: Seq<Seq<u64>>, row: int, col: int, v: u64)
    requires
        is_square(g),
        0 <= row < g.len(),
        0 <= col < g.len(),
    ensures
        is_square(g.update(row, g[row].update(col, v))),
        strictly_upper_zero(g) && row >= col ==> strictly_upper_zero(
            g.update(row, g[row].update(col, v)),
        ),
        strictly_lower_zero(g) && row <= col ==> strictly_lower_zero(
            g.update(row, g[row].update(col, v)),
        ),
{
    let g1 = g.update(row, g[row].update(col, v));
    assert forall|r: int| 0 <= r < g1.len() implies #[trigger] g1[r].len() == g1.len() by {
        if r != row {
            assert(g1[r] == g[r]);
        }
    }
    if strictly_upper_zero(g) && row >= col {
        assert forall|r: int, c: int|
            0 <= r < g1.len() && r < c < g1.len() implies #[trigger] g1[r][c] == zero_bits() by {
            if r != row {
                assert(g1[r] == g[r]);
            } else {
                assert(c != col);
            }
        }
    }
    if strictly_lower_zero(g) && row <= col {
        assert forall|r: int, c: int|
            0 <= c < g1.len() && c < r < g1.len() implies #[trigger] g1[r][c] == zero_bits() by {
            if r != row {
                assert(g1[r] == g[r]);
            } else {
                assert(c != col);
            }
        }
    }
}

/// How a factorization begins on input grid `a`: an empty grid is already
/// complete; otherwise U's first row is staged as a copy of A's first row
/// (the first pivot row needs no updates), L's first entry is staged, and
/// the machine stands at the division for L[0][0].
pub open spec fn lu_start(a: Seq<Seq<u64>>, m: LuMachine) -> bool {
    &&& m.input() == a
    &&& m.dim() == a.len()
    &&& if a.len() == 0 {
        m.phase() is Done
    } else {
        &&& m.phase() is Lower
        &&& m.pivot() == 0 && m.cell() == 0 && m.term() == 0
        &&& forall|c: int| 0 <= c < a.len() ==> m.upper()[0][c] == a[0][c]
        &&& forall|r: int, c: int|
            1 <= r < a.len() && 0 <= c < a.len() ==> #[trigger] m.upper()[r][c] == zero_bits()
        &&& m.lower()[0][0] == a[0][0]
        &&& forall|r: int, c: int|
            0 <= r < a.len() && 0 <= c < a.len() && !(r == 0 && c == 0)
                ==> #[trigger] m.lower()[r][c] == zero_bits()
    }
}

impl Matrix {
    /// Begins the Doolittle factorization of this grid.  The returned
    /// machine asks for one binary64 operation at a time; see [`LuMachine`].
    pub fn lu(&self) -> (m: LuMachine)
        requires
            self.wf(),
        ensures
            m.wf(),
            lu_start(self@, m),
            m.steps_left() == pivots_ops(self@.len() as int, 0),
    {
        let n = self.n();
        let a = self.duplicate();
        let l = Matrix::zero(n);
        let mut u = Matrix::zero(n);
        if n == 0 {
            LuMachine { a, l, u, i: 0, j: 0, k: 0, stage: LuStage::Done }
        } else {
            let mut c: usize = 0;
            while c < n
                invariant
                    c <= n,
                    n == a.spec_n(),
                    a.wf(),
                    a@ == self@,
                    u.wf(),
                    u.spec_n() == n,
                    forall|cc: int| 0 <= cc < c ==> u@[0][cc] == a@[0][cc],
                    forall|rr: int, cc: int|
                        1 <= rr < n && 0 <= cc < n ==> #[trigger] u@[rr][cc] == zero_bits(),
                    forall|cc: int| c <= cc < n ==> u@[0][cc] == zero_bits(),
                    strictly_lower_zero(u@),
                decreases n - c,
            {
                let v = a.get(0, c);
                proof {
                    lemma_write_keeps_shape(u@, 0, c as int, v);
                }
                u.set(0, c, v);
                c = c + 1;
            }
            let v0 = a.get(0, 0);
            let mut l = l;
            proof {
                lemma_write_keeps_shape(l@, 0, 0, v0);
                let ni = n as int;
                assert(pivots_ops(ni, 0) == (ni - 0) * 0 + (ni - 0) * 1 + pivots_ops(ni, 1));
                assert(ni * 0 == 0 && ni * 1 == ni && (ni - 1) * 1 == ni - 1) by (nonlinear_arith);
            }
            l.set(0, 0, v0);
            LuMachine { a, l, u, i: 0, j: 0, k: 0, stage: LuStage::Lower }
        }
    }

    /// Factorizes this grid in one call, with `f` carrying out each
    /// binary64 operation the schedule asks for.  The driver loop is proved
    /// to finish -- one call of `f` per owed operation -- and the factors
    /// are the end of a complete run of the machine on this grid, every
    /// supplied value an answer of `f` to the operation owed at that point,
    /// so they are the Doolittle factors under `f`'s arithmetic.  Whatever
    /// `f` returns, both come out in the triangular shapes
    /// [`LuMachine::finish`] guarantees, and U's first row is A's first row,
    /// which the schedule copies and never revisits.
    pub fn lu_run<F: Fn(LuOp) -> u64>(&self, f: F) -> (r: (Matrix, Matrix))
        requires
            self.wf(),
            forall|op: LuOp| #[trigger] call_requires(f, (op,)),
        ensures
            r.0.wf(),
            r.1.wf(),
            r.0.spec_n() == self.spec_n(),
            r.1.spec_n() == self.spec_n(),
            strictly_upper_zero(r.0@),
            strictly_lower_zero(r.1@),
            forall|c: int| 0 <= c < self.spec_n() ==> r.1@[0][c] == self@[0][c],
            exists|states: Seq<LuMachine>, vals: Seq<u64>|
                {
                    &&& #[trigger] lu_run_trace(self@, f, states, vals)
                    &&& r.0@ == states.last().lower()
                    &&& r.1@ == states.last().upper()
                },
    {
        let mut eng = self.lu();
        let ghost mut states: Seq<LuMachine> = seq![eng];
        let ghost mut vals: Seq<u64> = seq![];
        loop
            invariant
                eng.wf(),
                eng.dim() == self.spec_n(),
                forall|op: LuOp| #[trigger] call_requires(f, (op,)),
                states.len() == vals.len() + 1,
                states.last() == eng,
                lu_start(self@, states[0]),
                forall|t: int|
                    0 <= t < vals.len() ==> #[trigger] lu_trace_step(
                        f,
                        states[t],
                        vals[t],
                        states[t + 1],
                    ),
                forall|c: int| 0 <= c < self.spec_n() ==> eng.upper()[0][c] == self@[0][c],
            ensures
                eng.wf(),
                eng.dim() == self.spec_n(),
                eng.spec_pending() is None,
                states.len() == vals.len() + 1,
                states.last() == eng,
                lu_start(self@, states[0]),
                forall|t: int|
                    0 <= t < vals.len() ==> #[trigger] lu_trace_step(
                        f,
                        states[t],
                        vals[t],
                        states[t + 1],
                    ),
                forall|c: int| 0 <= c < self.spec_n() ==> eng.upper()[0][c] == self@[0][c],
            decreases eng.steps_left(),
        {
            let p = eng.pending();
            match p {
                None => {
                    break;
                },
                Some(op) => {
                    proof {
                        lemma_steps_positive(&eng);
                    }
                    let v = f(op);
                    let ghost pre = eng;
                    let ghost old_states = states;
                    let ghost old_vals = vals;
                    eng.supply(v);
                    proof {
                        assert(lu_trace_step(f, pre, v, eng));
                        states = states.push(eng);
                        vals = vals.push(v);
                        assert forall|t: int|
                            0 <= t < vals.len() implies #[trigger] lu_trace_step(
                            f,
                            states[t],
                            vals[t],
                            states[t + 1],
                        ) by {
                            if t < old_vals.len() {
                                assert(states[t] == old_states[t]);
                                assert(vals[t] == old_vals[t]);
                                assert(states[t + 1] == old_states[t + 1]);
                            } else {
                                assert(states[t] == pre && vals[t] == v && states[t + 1] == eng);
                            }
                        }
                    }
                },
            }
        }
        proof {
            assert(lu_run_trace(self@, f, states, vals));
        }
        eng.finish()
    }

    /// An independent copy of the grid.
    pub fn duplicate(&self) -> (m: Matrix)
        requires
            self.wf(),
        ensures
            m.wf(),
            m@ == self@,
    {
        let n = self.n();
        let mut cells: Vec<Vec<Option<u64>>> = Vec::new();
        let mut i: usize = 0;
        while i < n
            invariant
                i <= n,
                n == self.spec_n(),
                self.wf(),
                cells@.len() == i,
                forall|r: int| 0 <= r < i ==> #[trigger] cells@[r]@.len() == n,
                forall|r: int, c: int|
                    0 <= r < i && 0 <= c < n ==> #[trigger] cells@[r]@[c] == Some(self@[r][c]),
            decreases n - i,
        {
            let mut row: Vec<Option<u64>> = Vec::new();
            let mut j: usize = 0;
            while j < n
                invariant
                    j <= n,
                    n == self.spec_n(),
                    self.wf(),
                    i < n,
                    row@.len() == j,
                    forall|c: int| 0 <= c < j ==> #[trigger] row@[c] == Some(self@[i as int][c]),
                decreases n - j,
            {
                row.push(Some(self.get(i, j)));
                j = j + 1;
            }
            cells.push(row);
            i = i + 1;
        }
        let m = Matrix::new(cells);
        proof {
            assert(m@ =~~= self@);
        }
        m
    }
}

} // verus!
