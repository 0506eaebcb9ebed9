//! The solver state: the grid of cells, the completion counters, the guess
//! level and the guess stack, together with every operation that mutates
//! them.
//!
//! All multi-cell coordination lives here: conflict bookkeeping, candidate
//! recomputation, the forced-single and hidden-single passes, and the
//! guess-level-based backtracking search.

use crate::coord::{
    flat_ix, flat_of, in_grid, lemma_flat_bound, lemma_flat_injective, lemma_pos_of_flat, pos_at,
    pos_of, same_unit, same_unit_ix, Coord,
};
use crate::finished::Finished;
use crate::node::{count_true, Node};
use crate::regions::{
    all_seq, block_seq, col_seq, count_found_all, count_found_in, lemma_all_seq, lemma_block_seq, region_seq,
    lemma_col_seq, lemma_count_found_bounds, lemma_count_found_congr, lemma_count_found_full,
    lemma_count_found_missing, lemma_count_found_none, lemma_count_found_update, lemma_row_seq,
    row_seq,
};
use vstd::arithmetic::power::{lemma_pow1, lemma_pow_adds, lemma_pow_positive, pow};
use vstd::prelude::*;

verus! {

/// Why a command was rejected before touching the grid.
#[derive(Clone, Copy, Debug, PartialEq, Eq, Structural)]
pub enum CommandError {
    /// The position lies outside the grid.
    OutOfBounds,
    /// The value is not one the grid can hold.
    InvalidValue,
}

/// What a cell's guess-stack index becomes when stack entry `j` is removed:
/// indices above `j` move down one.
pub open spec fn gid_shift(g: Option<usize>, j: int) -> Option<usize> {
    match g {
        Option::None => Option::None,
        Option::Some(k) => if k < j {
            Option::Some(k)
        } else {
            Option::Some((k - 1) as usize)
        },
    }
}

/// The two cells agree on everything but their guess-stack index.
spec fn eq_but_gid(a: Node, b: Node) -> bool {
    if a.found() {
        &&& b.found()
        &&& b.val() == a.val()
        &&& b.level() == a.level()
        &&& b.confl() == a.confl()
    } else {
        b == a
    }
}

/// The two cells agree on everything but their conflict records.
spec fn eq_but_confl(a: Node, b: Node) -> bool {
    if a.found() {
        &&& b.found()
        &&& b.val() == a.val()
        &&& b.level() == a.level()
        &&& b.gid() == a.gid()
    } else {
        b == a
    }
}

/// The solver state for one puzzle.
pub struct State {
    nodes: Vec<Node>,
    finished: Finished,
    guess_level: usize,
    guesses: Vec<Coord>,
    size: usize,
    shape: Coord,
}

impl State {
    /// The side of the grid.
    pub closed spec fn n(&self) -> usize {
        self.size
    }

    /// The block shape.
    pub closed spec fn shape_s(&self) -> Coord {
        self.shape
    }

    /// The current guess level.
    pub closed spec fn lvl(&self) -> usize {
        self.guess_level
    }

    /// The guess stack: positions the search determined, oldest first.
    pub closed spec fn stack(&self) -> Seq<Coord> {
        self.guesses@
    }

    /// The flat cell array.
    pub closed spec fn nodes_s(&self) -> Seq<Node> {
        self.nodes@
    }

    /// The cell at `p`.
    pub closed spec fn node(&self, p: Coord) -> Node {
        self.nodes@[flat_of(self.size, p)]
    }

    /// Whether `p` lies inside the grid.
    pub closed spec fn in_b(&self, p: Coord) -> bool {
        in_grid(self.size, p)
    }

    /// Whether the cell at `p` is determined.
    pub closed spec fn found_at(&self, p: Coord) -> bool {
        self.node(p).found()
    }

    /// The determined value at `p`.
    pub closed spec fn val_at(&self, p: Coord) -> usize {
        self.node(p).val()
    }

    /// The guess level the cell at `p` was determined at.
    pub closed spec fn level_at(&self, p: Coord) -> usize {
        self.node(p).level()
    }

    /// The guess-stack index of the cell at `p`.
    pub closed spec fn gid_at(&self, p: Coord) -> Option<usize> {
        self.node(p).gid()
    }

    /// The conflict records of the cell at `p`.
    pub closed spec fn confl_at(&self, p: Coord) -> Seq<Coord> {
        self.node(p).confl()
    }

    /// The candidate flags of the cell at `p`.
    pub closed spec fn poss_at(&self, p: Coord) -> Seq<bool> {
        self.node(p).poss()
    }

    /// How many cells are determined, as the counters report it.
    pub closed spec fn det_count(&self) -> usize {
        self.finished.current_s()
    }

    /// How many cells the grid holds.
    pub closed spec fn total_count(&self) -> usize {
        self.finished.total_s()
    }

    /// Whether `a` and `b` constrain each other: distinct positions sharing
    /// a row, a column or a block.
    pub closed spec fn same_u(&self, a: Coord, b: Coord) -> bool {
        same_unit(self.shape, a, b)
    }

    /// Whether `a` and `b` are a conflicting pair: both determined to the
    /// same value while constraining each other.
    pub closed spec fn conflicting(&self, a: Coord, b: Coord) -> bool {
        &&& self.in_b(a)
        &&& self.in_b(b)
        &&& self.same_u(a, b)
        &&& self.found_at(a)
        &&& self.found_at(b)
        &&& self.val_at(a) == self.val_at(b)
    }

    /// Whether the cell at `a` records a conflict with `b`.
    pub closed spec fn has_confl(&self, a: Coord, b: Coord) -> bool {
        self.found_at(a) && self.confl_at(a).contains(b)
    }

    /// Whether value `v` is ruled out at `p` by some determined cell that
    /// constrains `p`.
    pub closed spec fn blocked(&self, p: Coord, v: int) -> bool {
        exists|q: Coord|
            {
                &&& #[trigger] self.same_u(p, q)
                &&& self.in_b(q)
                &&& self.found_at(q)
                &&& self.val_at(q) == v
            }
    }

    /// The dimensions are consistent.
    pub closed spec fn dims_ok(&self) -> bool {
        &&& self.shape.x >= 1
        &&& self.shape.y >= 1
        &&& self.size == self.shape.x * self.shape.y
        &&& self.size >= 1
        &&& self.size * self.size <= usize::MAX
        &&& self.nodes@.len() == self.size * self.size
    }

    /// One cell is well-formed.
    pub closed spec fn node_ok(&self, p: Coord) -> bool {
        if self.found_at(p) {
            &&& self.val_at(p) < self.size
            &&& self.level_at(p) <= self.guess_level
            &&& (self.gid_at(p) is Some ==> self.level_at(p) >= 1)
            &&& (forall|j: int|
                0 <= j < self.confl_at(p).len() ==> self.in_b(#[trigger] self.confl_at(p)[j]))
            &&& (forall|j1: int, j2: int|
                0 <= j1 < self.confl_at(p).len() && 0 <= j2 < self.confl_at(p).len() && j1 != j2
                    ==> #[trigger] self.confl_at(p)[j1] != #[trigger] self.confl_at(p)[j2])
        } else {
            self.poss_at(p).len() == self.size
        }
    }

    /// Every cell is well-formed.
    pub closed spec fn nodes_ok(&self) -> bool {
        forall|p: Coord| self.in_b(p) ==> #[trigger] self.node_ok(p)
    }

    /// Conflict records are exact: a cell records a conflict with another
    /// exactly when the two are a conflicting pair.
    pub closed spec fn conflicts_ok(&self) -> bool {
        forall|a: Coord, b: Coord|
            #![trigger self.has_confl(a, b)]
            #![trigger self.conflicting(a, b)]
            self.in_b(a) && self.in_b(b) ==> (self.has_confl(a, b) <==> self.conflicting(a, b))
    }

    /// The completion counters agree with the grid.
    pub closed spec fn counts_ok(&self) -> bool {
        &&& self.finished.wf()
        &&& self.finished.sz() == self.size
        &&& self.finished.shape_s() == self.shape
        &&& self.finished.total_s() == self.size * self.size
        &&& self.finished.rows_s().len() == self.size
        &&& self.finished.columns_s().len() == self.size
        &&& self.finished.blocks_s().len() == self.size
        &&& self.finished.current_s() == count_found_all(self.nodes@, self.size)
        &&& (forall|y: usize|
            y < self.size ==> #[trigger] self.finished.rows_s()[y as int] == count_found_in(
                self.nodes@,
                self.size,
                row_seq(self.size, y),
            ))
        &&& (forall|x: usize|
            x < self.size ==> #[trigger] self.finished.columns_s()[x as int] == count_found_in(
                self.nodes@,
                self.size,
                col_seq(self.size, x),
            ))
        &&& (forall|b: usize|
            b < self.size ==> #[trigger] self.finished.blocks_s()[b as int] == count_found_in(
                self.nodes@,
                self.size,
                block_seq(self.size, self.shape, b),
            ))
    }

    /// The guess stack and the cells' guess-stack indices agree: entry `i`
    /// is the one determined cell whose index is `i`.
    pub closed spec fn stack_ok(&self) -> bool {
        &&& self.guesses@.len() <= self.size * self.size
        &&& (forall|i1: int, i2: int|
            0 <= i1 < self.guesses@.len() && 0 <= i2 < self.guesses@.len() && i1 != i2
                ==> self.guesses@[i1] != self.guesses@[i2])
        &&& (forall|i1: int, i2: int|
            0 <= i1 < i2 < self.guesses@.len() ==> self.level_at(#[trigger] self.guesses@[i1])
                < self.level_at(#[trigger] self.guesses@[i2]))
        &&& (forall|i: int|
            0 <= i < self.guesses@.len() ==> {
                &&& self.in_b(#[trigger] self.guesses@[i])
                &&& self.found_at(self.guesses@[i])
                &&& self.gid_at(self.guesses@[i]) == Some(i as usize)
            })
        &&& (forall|p: Coord|
            self.in_b(p) && self.found_at(p) && (#[trigger] self.gid_at(p)) is Some
                ==> self.gid_at(p)->Some_0 < self.guesses@.len() && self.guesses@[self.gid_at(
                p,
            )->Some_0 as int] == p)
    }

    /// The structural invariant of the solver state.
    pub closed spec fn wf(&self) -> bool {
        &&& self.dims_ok()
        &&& self.nodes_ok()
        &&& self.conflicts_ok()
        &&& self.counts_ok()
        &&& self.stack_ok()
    }

    /// Candidate flags are exact: an open cell offers a value exactly when
    /// no determined cell that constrains it holds that value.
    pub closed spec fn propagated(&self) -> bool {
        forall|p: Coord, v: int|
            #![trigger self.poss_at(p)[v]]
            self.in_b(p) && !self.found_at(p) && 0 <= v < self.size ==> (self.poss_at(p)[v]
                <==> !self.blocked(p, v))
    }

    /// The full invariant: well-formed and freshly propagated.
    pub closed spec fn inv(&self) -> bool {
        self.wf() && self.propagated()
    }

    /// A fresh puzzle for blocks of shape `sub_size`: a grid of side
    /// `sub_size.x * sub_size.y` with every cell open and every value a
    /// candidate everywhere.
    pub fn new(sub_size: Coord) -> (r: Self)
        requires
            sub_size.x >= 1,
            sub_size.y >= 1,
            (sub_size.x * sub_size.y) * (sub_size.x * sub_size.y) <= usize::MAX,
        ensures
            r.inv(),
            r.n() == sub_size.x * sub_size.y,
            r.shape_s() == sub_size,
            r.lvl() == 0,
            r.stack().len() == 0,
            r.det_count() == 0,
            r.total_count() == r.n() * r.n(),
            forall|p: Coord| r.in_b(p) ==> !(#[trigger] r.found_at(p)),
            forall|p: Coord|
                r.in_b(p) ==> #[trigger] r.poss_at(p).len() == r.n() && (forall|v: int|
                    0 <= v < r.n() ==> #[trigger] r.poss_at(p)[v]),
    {
        proof {
            assert(1 <= sub_size.x * sub_size.y && sub_size.x * sub_size.y <= (sub_size.x
                * sub_size.y) * (sub_size.x * sub_size.y)) by (nonlinear_arith)
                requires
                    sub_size.x >= 1,
                    sub_size.y >= 1,
            ;
        }
        let size = sub_size.x * sub_size.y;
        let total = size * size;
        let mut nodes: Vec<Node> = Vec::new();
        let mut i: usize = 0;
        while i < total
            invariant
                i <= total,
                nodes@.len() == i,
                forall|j: int|
                    0 <= j < i ==> !(#[trigger] nodes@[j]).found() && nodes@[j].poss().len()
                        == size && (forall|v: int| 0 <= v < size ==> nodes@[j].poss()[v]),
            decreases total - i,
        {
            nodes.push(Node::new(size));
            i += 1;
        }
        let r = State {
            nodes,
            finished: Finished::new(size, sub_size),
            guess_level: 0,
            guesses: Vec::new(),
            size,
            shape: sub_size,
        };
        proof {
            r.lemma_empty_grid_wf();
        }
        r
    }

    /// A grid of open cells with no conflicts recorded satisfies the
    /// invariant.
    proof fn lemma_empty_grid_wf(&self)
        requires
            self.dims_ok(),
            forall|j: int|
                0 <= j < self.nodes@.len() ==> !(#[trigger] self.nodes@[j]).found()
                    && self.nodes@[j].poss().len() == self.size && (forall|v: int|
                    0 <= v < self.size ==> self.nodes@[j].poss()[v]),
            self.finished.wf(),
            self.finished.sz() == self.size,
            self.finished.shape_s() == self.shape,
            self.finished.current_s() == 0,
            forall|i: int| 0 <= i < self.size ==> self.finished.rows_s()[i] == 0,
            forall|i: int| 0 <= i < self.size ==> self.finished.columns_s()[i] == 0,
            forall|i: int| 0 <= i < self.size ==> self.finished.blocks_s()[i] == 0,
            self.guesses@.len() == 0,
        ensures
            self.inv(),
            forall|p: Coord| self.in_b(p) ==> !(#[trigger] self.found_at(p)),
            forall|p: Coord|
                self.in_b(p) ==> #[trigger] self.poss_at(p).len() == self.n() && (forall|v: int|
                    0 <= v < self.n() ==> #[trigger] self.poss_at(p)[v]),
    {
        let size = self.size;
        self.finished.lemma_dims();
        assert forall|p: Coord| self.in_b(p) implies !(#[trigger] self.found_at(p))
            && self.node_ok(p) by {
            lemma_flat_bound(size, p);
        }
        assert forall|p: Coord|
            self.in_b(p) implies #[trigger] self.poss_at(p).len() == self.n() && (forall|v: int|
            0 <= v < self.n() ==> #[trigger] self.poss_at(p)[v]) by {
            lemma_flat_bound(size, p);
        }
        assert forall|a: Coord, b: Coord|
            #![trigger self.has_confl(a, b)]
            #![trigger self.conflicting(a, b)]
            self.in_b(a) && self.in_b(b) implies (self.has_confl(a, b) <==> self.conflicting(
            a,
            b,
        )) by {
            lemma_flat_bound(size, a);
        }
        lemma_all_seq(size);
        lemma_count_found_none(self.nodes@, size, all_seq(size));
        assert forall|y: usize| y < size implies #[trigger] self.finished.rows_s()[y as int]
            == count_found_in(self.nodes@, size, row_seq(size, y)) by {
            lemma_row_seq(size, y);
            assert forall|j: int| 0 <= j < row_seq(size, y).len() implies !self.nodes@[flat_of(
                size,
                #[trigger] row_seq(size, y)[j],
            )].found() by {
                lemma_flat_bound(size, row_seq(size, y)[j]);
            }
            lemma_count_found_none(self.nodes@, size, row_seq(size, y));
        }
        assert forall|x: usize| x < size implies #[trigger] self.finished.columns_s()[x as int]
            == count_found_in(self.nodes@, size, col_seq(size, x)) by {
            lemma_col_seq(size, x);
            assert forall|j: int| 0 <= j < col_seq(size, x).len() implies !self.nodes@[flat_of(
                size,
                #[trigger] col_seq(size, x)[j],
            )].found() by {
                lemma_flat_bound(size, col_seq(size, x)[j]);
            }
            lemma_count_found_none(self.nodes@, size, col_seq(size, x));
        }
        assert forall|b: usize| b < size implies #[trigger] self.finished.blocks_s()[b as int]
            == count_found_in(self.nodes@, size, block_seq(size, self.shape, b)) by {
            lemma_block_seq(size, self.shape, b);
            assert forall|j: int|
                0 <= j < block_seq(size, self.shape, b).len() implies !self.nodes@[flat_of(
                size,
                #[trigger] block_seq(size, self.shape, b)[j],
            )].found() by {
                lemma_flat_bound(size, block_seq(size, self.shape, b)[j]);
            }
            lemma_count_found_none(self.nodes@, size, block_seq(size, self.shape, b));
        }
        assert forall|p: Coord, v: int|
            #![trigger self.poss_at(p)[v]]
            self.in_b(p) && !self.found_at(p) && 0 <= v < size implies (self.poss_at(p)[v]
            <==> !self.blocked(p, v)) by {
            lemma_flat_bound(size, p);
            if self.blocked(p, v) {
                let q = choose|q: Coord|
                    {
                        &&& #[trigger] self.same_u(p, q)
                        &&& self.in_b(q)
                        &&& self.found_at(q)
                        &&& self.val_at(q) == v
                    };
                lemma_flat_bound(size, q);
            }
        }
    }

    /// Whether value `v` is ruled out at `p` by some determined cell with
    /// flat index below `m` that constrains `p`.
    spec fn blocked_upto(&self, p: Coord, v: int, m: int) -> bool {
        exists|q: Coord|
            {
                &&& #[trigger] self.same_u(p, q)
                &&& self.in_b(q)
                &&& flat_of(self.size, q) < m
                &&& self.found_at(q)
                &&& self.val_at(q) == v
            }
    }

    /// The grids of `a` and `b` have the same shape and agree on which cells
    /// are determined and to what value.
    pub closed spec fn same_grid_found(a: State, b: State) -> bool {
        &&& a.n() == b.n()
        &&& a.shape_s() == b.shape_s()
        &&& (forall|q: Coord|
            a.in_b(q) ==> (#[trigger] a.found_at(q)) == b.found_at(q) && (a.found_at(q)
                ==> a.val_at(q) == b.val_at(q)))
    }

    /// Blocking depends only on the determined cells and their values.
    #[verifier::spinoff_prover]
    proof fn lemma_blocked_congr(a: State, b: State, p: Coord, v: int)
        requires
            Self::same_grid_found(a, b),
        ensures
            a.blocked(p, v) == b.blocked(p, v),
    {
        if a.blocked(p, v) {
            let q = choose|q: Coord|
                {
                    &&& #[trigger] a.same_u(p, q)
                    &&& a.in_b(q)
                    &&& a.found_at(q)
                    &&& a.val_at(q) == v
                };
            assert(b.same_u(p, q) && b.in_b(q) && b.found_at(q) && b.val_at(q) == v);
        }
        if b.blocked(p, v) {
            let q = choose|q: Coord|
                {
                    &&& #[trigger] b.same_u(p, q)
                    &&& b.in_b(q)
                    &&& b.found_at(q)
                    &&& b.val_at(q) == v
                };
            assert(a.same_u(p, q) && a.in_b(q) && a.found_at(q) && a.val_at(q) == v);
        }
    }

    /// Counters stay exact when no cell changed its determined-ness.
    proof fn lemma_counts_congr(a: State, b: State)
        requires
            a.counts_ok(),
            a.dims_ok(),
            b.dims_ok(),
            b.finished == a.finished,
            b.n() == a.n(),
            b.shape_s() == a.shape_s(),
            forall|q: Coord| a.in_b(q) ==> (#[trigger] a.found_at(q)) == b.found_at(q),
        ensures
            b.counts_ok(),
    {
        let size = a.n();
        let shape = a.shape_s();
        lemma_all_seq(size);
        assert forall|j: int| 0 <= j < all_seq(size).len() implies a.nodes@[flat_of(
            size,
            #[trigger] all_seq(size)[j],
        )].found() == b.nodes@[flat_of(size, all_seq(size)[j])].found() by {
            assert(a.found_at(all_seq(size)[j]) == b.found_at(all_seq(size)[j]));
        }
        lemma_count_found_congr(a.nodes@, b.nodes@, size, all_seq(size));
        assert forall|y: usize| y < size implies #[trigger] b.finished.rows_s()[y as int]
            == count_found_in(b.nodes@, size, row_seq(size, y)) by {
            lemma_row_seq(size, y);
            assert forall|j: int| 0 <= j < row_seq(size, y).len() implies a.nodes@[flat_of(
                size,
                #[trigger] row_seq(size, y)[j],
            )].found() == b.nodes@[flat_of(size, row_seq(size, y)[j])].found() by {
                assert(a.found_at(row_seq(size, y)[j]) == b.found_at(row_seq(size, y)[j]));
            }
            lemma_count_found_congr(a.nodes@, b.nodes@, size, row_seq(size, y));
        }
        assert forall|x: usize| x < size implies #[trigger] b.finished.columns_s()[x as int]
            == count_found_in(b.nodes@, size, col_seq(size, x)) by {
            lemma_col_seq(size, x);
            assert forall|j: int| 0 <= j < col_seq(size, x).len() implies a.nodes@[flat_of(
                size,
                #[trigger] col_seq(size, x)[j],
            )].found() == b.nodes@[flat_of(size, col_seq(size, x)[j])].found() by {
                assert(a.found_at(col_seq(size, x)[j]) == b.found_at(col_seq(size, x)[j]));
            }
            lemma_count_found_congr(a.nodes@, b.nodes@, size, col_seq(size, x));
        }
        assert forall|bi: usize| bi < size implies #[trigger] b.finished.blocks_s()[bi as int]
            == count_found_in(b.nodes@, size, block_seq(size, shape, bi)) by {
            lemma_block_seq(size, shape, bi);
            assert forall|j: int|
                0 <= j < block_seq(size, shape, bi).len() implies a.nodes@[flat_of(
                size,
                #[trigger] block_seq(size, shape, bi)[j],
            )].found() == b.nodes@[flat_of(size, block_seq(size, shape, bi)[j])].found() by {
                assert(a.found_at(block_seq(size, shape, bi)[j]) == b.found_at(
                    block_seq(size, shape, bi)[j],
                ));
            }
            lemma_count_found_congr(a.nodes@, b.nodes@, size, block_seq(size, shape, bi));
        }
    }

    /// Fresh candidate flags for the open cell at `p`: one flag per value,
    /// set exactly when no determined cell constraining `p` holds the value.
    fn recompute_list(&self, p: Coord) -> (r: Vec<bool>)
        requires
            self.dims_ok(),
            self.nodes_ok(),
            self.in_b(p),
        ensures
            r@.len() == self.n(),
            forall|v: int| 0 <= v < self.n() ==> ((#[trigger] r@[v]) <==> !self.blocked(p, v)),
    {
        let size = self.size;
        let total = size * size;
        let mut list: Vec<bool> = Vec::new();
        let mut v: usize = 0;
        while v < size
            invariant
                v <= size,
                list@.len() == v,
                forall|w: int| 0 <= w < v ==> list@[w],
            decreases size - v,
        {
            list.push(true);
            v += 1;
        }
        assert forall|w: int| 0 <= w < size implies list@[w] <==> !self.blocked_upto(p, w, 0) by {
        }
        let mut i: usize = 0;
        while i < total
            invariant
                i <= total,
                list@.len() == size,
                forall|w: int|
                    0 <= w < size ==> ((#[trigger] list@[w]) <==> !self.blocked_upto(
                        p,
                        w,
                        i as int,
                    )),
            decreases total - i,
        {
            let q = pos_at(size, i);
            let ghost prev = list@;
            if same_unit_ix(self.shape, p, q) {
                if let Some(nm) = self.nodes[i].get_num() {
                    proof {
                        assert(self.node(q) == self.nodes@[i as int]);
                        assert(self.node_ok(q));
                    }
                    list.set(nm, false);
                }
            }
            proof {
                self.lemma_recompute_step(p, q, i as int, prev, list@);
            }
            i += 1;
        }
        proof {
            assert forall|w: int| 0 <= w < size implies ((#[trigger] list@[w]) <==> !self.blocked(
                p,
                w,
            )) by {
                if self.blocked(p, w) {
                    let q = choose|q: Coord|
                        {
                            &&& #[trigger] self.same_u(p, q)
                            &&& self.in_b(q)
                            &&& self.found_at(q)
                            &&& self.val_at(q) == w
                        };
                    lemma_flat_bound(size, q);
                    assert(self.blocked_upto(p, w, total as int));
                }
                if self.blocked_upto(p, w, total as int) {
                    assert(self.blocked(p, w));
                }
            }
        }
        list
    }

    /// One step of the candidate recomputation scan: after looking at the
    /// cell with flat index `i`, the flags are exact for the prefix `i + 1`.
    proof fn lemma_recompute_step(&self, p: Coord, q: Coord, i: int, prev: Seq<bool>, cur: Seq<bool>)
        requires
            self.dims_ok(),
            self.nodes_ok(),
            self.in_b(p),
            self.in_b(q),
            flat_of(self.n(), q) == i,
            prev.len() == self.n(),
            forall|w: int|
                0 <= w < self.n() ==> ((#[trigger] prev[w]) <==> !self.blocked_upto(p, w, i)),
            self.same_u(p, q) && self.found_at(q) ==> cur == prev.update(
                self.val_at(q) as int,
                false,
            ),
            !(self.same_u(p, q) && self.found_at(q)) ==> cur == prev,
        ensures
            cur.len() == self.n(),
            forall|w: int|
                0 <= w < self.n() ==> ((#[trigger] cur[w]) <==> !self.blocked_upto(p, w, i + 1)),
    {
        let size = self.n();
        assert(self.node_ok(q));
        assert forall|w: int| 0 <= w < size implies ((#[trigger] cur[w]) <==> !self.blocked_upto(
            p,
            w,
            i + 1,
        )) by {
            if self.blocked_upto(p, w, i + 1) {
                let r = choose|r: Coord|
                    {
                        &&& #[trigger] self.same_u(p, r)
                        &&& self.in_b(r)
                        &&& flat_of(size, r) < i + 1
                        &&& self.found_at(r)
                        &&& self.val_at(r) == w
                    };
                if flat_of(size, r) == i {
                    lemma_flat_injective(size, r, q);
                    assert(self.same_u(p, q) && self.found_at(q) && self.val_at(q) == w);
                    assert(!cur[w]);
                } else {
                    assert(self.blocked_upto(p, w, i));
                    assert(!prev[w]);
                    assert(!cur[w]);
                }
            } else {
                assert(!self.blocked_upto(p, w, i)) by {
                    if self.blocked_upto(p, w, i) {
                        let r = choose|r: Coord|
                            {
                                &&& #[trigger] self.same_u(p, r)
                                &&& self.in_b(r)
                                &&& flat_of(size, r) < i
                                &&& self.found_at(r)
                                &&& self.val_at(r) == w
                            };
                        assert(flat_of(size, r) < i + 1);
                    }
                }
                assert(prev[w]);
                if self.same_u(p, q) && self.found_at(q) {
                    assert(self.val_at(q) != w) by {
                        if self.val_at(q) == w {
                            assert(self.blocked_upto(p, w, i + 1));
                        }
                    }
                    assert(cur[w]);
                }
            }
        }
    }

    /// Recomputes every open cell's candidate flags from the determined
    /// cells: a full propagation pass over the whole grid.
    #[verifier::rlimit(40)]
    fn reset_possible(&mut self)
        requires
            old(self).wf(),
        ensures
            final(self).wf(),
            final(self).propagated(),
            final(self).n() == old(self).n(),
            final(self).shape_s() == old(self).shape_s(),
            final(self).lvl() == old(self).lvl(),
            final(self).stack() == old(self).stack(),
            final(self).det_count() == old(self).det_count(),
            final(self).total_count() == old(self).total_count(),
            forall|p: Coord|
                old(self).in_b(p) && old(self).found_at(p) ==> #[trigger] final(self).node(p)
                    == old(self).node(p),
            forall|p: Coord|
                old(self).in_b(p) && !old(self).found_at(p)
                    ==> !(#[trigger] final(self).found_at(p))
                    && final(self).poss_at(p).len() == old(self).n(),
            forall|p: Coord, v: int|
                #![trigger final(self).poss_at(p)[v]]
                old(self).in_b(p) && !old(self).found_at(p) && 0 <= v < old(self).n()
                    ==> (final(self).poss_at(p)[v] <==> !old(self).blocked(p, v)),
    {
        let size = self.size;
        let total = size * size;
        let mut i: usize = 0;
        while i < total
            invariant
                i <= total,
                self.size == old(self).size,
                self.shape == old(self).shape,
                self.guess_level == old(self).guess_level,
                self.guesses == old(self).guesses,
                self.finished == old(self).finished,
                self.nodes@.len() == old(self).nodes@.len(),
                forall|j: int|
                    0 <= j < total && old(self).nodes@[j].found() ==> #[trigger] self.nodes@[j]
                        == old(self).nodes@[j],
                forall|j: int|
                    i <= j < total && !old(self).nodes@[j].found() ==> #[trigger] self.nodes@[j]
                        == old(self).nodes@[j],
                forall|j: int|
                    0 <= j < i && !old(self).nodes@[j].found() ==> !(#[trigger] self.nodes@[j]).found()
                        && self.nodes@[j].poss().len() == size && (forall|v: int|
                        0 <= v < size ==> ((#[trigger] self.nodes@[j].poss()[v]) <==> !old(
                            self,
                        ).blocked(pos_of(size, j), v))),
            decreases total - i,
        {
            let is_open = !self.nodes[i].is_found();
            if is_open {
                let p = pos_at(size, i);
                proof {
                    assert(Self::same_grid_found(*self, *old(self))) by {
                        assert forall|q: Coord| self.in_b(q) implies (#[trigger] self.found_at(q))
                            == old(self).found_at(q) && (self.found_at(q) ==> self.val_at(q) == old(
                            self,
                        ).val_at(q)) by {
                            lemma_flat_bound(size, q);
                        }
                    }
                    assert forall|q: Coord| self.in_b(q) implies #[trigger] self.node_ok(q) by {
                        lemma_flat_bound(size, q);
                        assert(old(self).in_b(q) && old(self).node_ok(q));
                        if old(self).found_at(q) {
                            assert(self.node(q) == old(self).node(q));
                            assert(self.confl_at(q) == old(self).confl_at(q));
                            assert forall|j: int|
                                0 <= j < self.confl_at(q).len() implies self.in_b(
                                #[trigger] self.confl_at(q)[j],
                            ) by {
                                assert(self.confl_at(q)[j] == old(self).confl_at(q)[j]);
                            }
                            assert forall|j1: int, j2: int|
                                0 <= j1 < self.confl_at(q).len() && 0 <= j2 < self.confl_at(
                                    q,
                                ).len() && j1 != j2 implies #[trigger] self.confl_at(q)[j1]
                                != #[trigger] self.confl_at(q)[j2] by {
                                assert(self.confl_at(q)[j1] == old(self).confl_at(q)[j1]);
                                assert(self.confl_at(q)[j2] == old(self).confl_at(q)[j2]);
                            }
                            assert(self.node_ok(q));
                        } else {
                            assert(!self.found_at(q));
                            if flat_of(size, q) < i {
                                assert(self.poss_at(q).len() == size);
                            } else {
                                assert(self.node(q) == old(self).node(q));
                            }
                            assert(self.node_ok(q));
                        }
                    }
                }
                let list = self.recompute_list(p);
                proof {
                    assert forall|v: int| 0 <= v < size implies ((#[trigger] list@[v]) <==> !old(
                        self,
                    ).blocked(p, v)) by {
                        Self::lemma_blocked_congr(*self, *old(self), p, v);
                    }
                }
                self.nodes.set(i, Node::Possible(list));
            }
            i += 1;
        }
        proof {
            self.lemma_reset_done(*old(self));
            assert forall|p: Coord, v: int|
                #![trigger self.poss_at(p)[v]]
                old(self).in_b(p) && !old(self).found_at(p) && 0 <= v < old(self).n() implies (
            self.poss_at(p)[v] <==> !old(self).blocked(p, v)) by {
            }
        }
    }

    /// After the propagation scan the invariant holds again and the frame
    /// conditions of `reset_possible` follow.
    proof fn lemma_reset_done(&self, pre: State)
        requires
            pre.wf(),
            self.size == pre.size,
            self.shape == pre.shape,
            self.guess_level == pre.guess_level,
            self.guesses == pre.guesses,
            self.finished == pre.finished,
            self.nodes@.len() == pre.nodes@.len(),
            forall|j: int|
                0 <= j < pre.nodes@.len() && pre.nodes@[j].found() ==> #[trigger] self.nodes@[j]
                    == pre.nodes@[j],
            forall|j: int|
                0 <= j < pre.nodes@.len() && !pre.nodes@[j].found() ==> !(#[trigger] self.nodes@[j]).found()
                    && self.nodes@[j].poss().len() == pre.size && (forall|v: int|
                    0 <= v < pre.size ==> ((#[trigger] self.nodes@[j].poss()[v]) <==> !pre.blocked(
                        pos_of(pre.size as usize, j),
                        v,
                    ))),
        ensures
            self.wf(),
            self.propagated(),
            forall|p: Coord|
                pre.in_b(p) && pre.found_at(p) ==> #[trigger] self.node(p) == pre.node(p),
            forall|p: Coord|
                pre.in_b(p) && !pre.found_at(p) ==> !(#[trigger] self.found_at(p))
                    && self.poss_at(p).len() == pre.n() && (forall|v: int|
                    0 <= v < pre.n() ==> ((#[trigger] self.poss_at(p)[v]) <==> !pre.blocked(p, v))),
    {
        let size = pre.n();
        assert forall|p: Coord| pre.in_b(p) && pre.found_at(p) implies #[trigger] self.node(p)
            == pre.node(p) by {
            lemma_flat_bound(size, p);
        }
        assert forall|p: Coord| pre.in_b(p) && !pre.found_at(p) implies !(#[trigger] self.found_at(
            p,
        )) && self.poss_at(p).len() == pre.n() && (forall|v: int|
            0 <= v < pre.n() ==> ((#[trigger] self.poss_at(p)[v]) <==> !pre.blocked(p, v))) by {
            lemma_flat_bound(size, p);
            lemma_pos_of_flat(size, flat_of(size, p));
            lemma_flat_injective(size, pos_of(size, flat_of(size, p)), p);
            assert(pos_of(size, flat_of(size, p)) == p);
        }
        assert(Self::same_grid_found(pre, *self)) by {
            assert forall|q: Coord| pre.in_b(q) implies (#[trigger] pre.found_at(q))
                == self.found_at(q) && (pre.found_at(q) ==> pre.val_at(q) == self.val_at(q)) by {
                lemma_flat_bound(size, q);
            }
        }
        assert forall|p: Coord| self.in_b(p) implies #[trigger] self.node_ok(p) by {
            lemma_flat_bound(size, p);
            assert(pre.in_b(p) && pre.node_ok(p));
            if pre.found_at(p) {
                assert(self.node(p) == pre.node(p));
                assert(self.found_at(p) && self.val_at(p) == pre.val_at(p) && self.level_at(p)
                    == pre.level_at(p) && self.gid_at(p) == pre.gid_at(p) && self.confl_at(p)
                    == pre.confl_at(p));
                assert(self.node_ok(p));
            } else {
                assert(!self.found_at(p));
                assert(self.poss_at(p).len() == size);
                assert(self.node_ok(p));
            }
        }
        assert forall|a: Coord, b: Coord|
            #![trigger self.has_confl(a, b)]
            #![trigger self.conflicting(a, b)]
            self.in_b(a) && self.in_b(b) implies (self.has_confl(a, b) <==> self.conflicting(
            a,
            b,
        )) by {
            lemma_flat_bound(size, a);
            lemma_flat_bound(size, b);
            assert(pre.has_confl(a, b) <==> pre.conflicting(a, b));
            if pre.found_at(a) {
                assert(self.node(a) == pre.node(a));
            }
            if pre.found_at(b) {
                assert(self.node(b) == pre.node(b));
            }
            assert(self.found_at(a) == pre.found_at(a) && self.found_at(b) == pre.found_at(b));
        }
        assert(self.stack_ok()) by {
            assert forall|i: int| 0 <= i < self.guesses@.len() implies {
                &&& self.in_b(#[trigger] self.guesses@[i])
                &&& self.found_at(self.guesses@[i])
                &&& self.gid_at(self.guesses@[i]) == Some(i as usize)
            } by {
                lemma_flat_bound(size, pre.guesses@[i]);
                assert(self.node(pre.guesses@[i]) == pre.node(pre.guesses@[i]));
            }
            assert forall|p: Coord|
                self.in_b(p) && self.found_at(p) && (#[trigger] self.gid_at(p)) is Some implies
                self.gid_at(p)->Some_0 < self.guesses@.len() && self.guesses@[self.gid_at(
                p,
            )->Some_0 as int] == p by {
                lemma_flat_bound(size, p);
                assert(pre.found_at(p));
                assert(self.node(p) == pre.node(p));
                assert(pre.gid_at(p) == self.gid_at(p));
                assert(pre.gid_at(p) is Some);
            }
        }
        assert(self.counts_ok()) by {
            assert forall|q: Coord| pre.in_b(q) implies (#[trigger] pre.found_at(q))
                == self.found_at(q) by {
                lemma_flat_bound(size, q);
            }
            Self::lemma_counts_congr(pre, *self);
        }
        assert forall|p: Coord, v: int|
            #![trigger self.poss_at(p)[v]]
            self.in_b(p) && !self.found_at(p) && 0 <= v < self.n() implies (self.poss_at(p)[v]
            <==> !self.blocked(p, v)) by {
            lemma_flat_bound(size, p);
            Self::lemma_blocked_congr(pre, *self, p, v);
        }
    }

    /// Drops the guess-stack entry of the cell at `pos`, if it has one, and
    /// moves the entries above it down one, renumbering their cells.
    #[verifier::spinoff_prover]
    fn unregister_guess(&mut self, pos: Coord)
        requires
            old(self).wf(),
            old(self).in_b(pos),
        ensures
            final(self).wf(),
            final(self).n() == old(self).n(),
            final(self).shape_s() == old(self).shape_s(),
            final(self).lvl() == old(self).lvl(),
            final(self).det_count() == old(self).det_count(),
            final(self).total_count() == old(self).total_count(),
            forall|q: Coord|
                old(self).in_b(q) ==> eq_but_gid(old(self).node(q), #[trigger] final(self).node(
                    q,
                )),
            !(old(self).found_at(pos) && old(self).gid_at(pos) is Some) ==> *final(self) == *old(
                self,
            ),
            old(self).found_at(pos) && old(self).gid_at(pos) is Some ==> {
                let j = old(self).gid_at(pos)->Some_0 as int;
                &&& final(self).stack() == old(self).stack().remove(j)
                &&& final(self).gid_at(pos) == None::<usize>
                &&& (forall|q: Coord|
                    old(self).in_b(q) && q != pos && old(self).found_at(q)
                        ==> #[trigger] final(self).gid_at(q) == gid_shift(old(self).gid_at(q), j))
            },
            old(self).propagated() ==> final(self).propagated(),
    {
        let size = self.size;
        let i = flat_ix(size, pos);
        let gid: Option<usize> = match &self.nodes[i] {
            Node::Found(d) => d.guess_id,
            Node::Possible(_) => None,
        };
        if let Some(j) = gid {
            proof {
                assert(self.gid_at(pos) == Some(j));
                assert(j < self.guesses@.len() && self.guesses@[j as int] == pos);
            }
            self.guesses.remove(j);
            let total = size * size;
            let mut k: usize = 0;
            while k < total
                invariant
                    k <= total,
                    self.size == old(self).size,
                    self.shape == old(self).shape,
                    self.guess_level == old(self).guess_level,
                    self.finished == old(self).finished,
                    self.guesses@ == old(self).guesses@.remove(j as int),
                    self.nodes@.len() == old(self).nodes@.len(),
                    i < total,
                    old(self).nodes@[i as int].found(),
                    old(self).nodes@[i as int].gid() == Some(j),
                    forall|t: int|
                        0 <= t < total ==> eq_but_gid(
                            old(self).nodes@[t],
                            #[trigger] self.nodes@[t],
                        ),
                    forall|t: int| k <= t < total ==> #[trigger] self.nodes@[t] == old(
                        self,
                    ).nodes@[t],
                    forall|t: int|
                        0 <= t < k && old(self).nodes@[t].found() ==> (#[trigger] self.nodes@[t]).gid()
                            == if t == i {
                            None::<usize>
                        } else {
                            gid_shift(old(self).nodes@[t].gid(), j as int)
                        },
                decreases total - k,
            {
                let g: Option<usize> = match &self.nodes[k] {
                    Node::Found(d) => d.guess_id,
                    Node::Possible(_) => None,
                };
                if let Some(m) = g {
                    if k == i {
                        let mut tmp = Node::Possible(Vec::new());
                        self.nodes.set_and_swap(k, &mut tmp);
                        tmp.erase_guess_id();
                        self.nodes.set_and_swap(k, &mut tmp);
                    } else if m > j {
                        let mut tmp = Node::Possible(Vec::new());
                        self.nodes.set_and_swap(k, &mut tmp);
                        tmp.set_guess_id(m - 1);
                        self.nodes.set_and_swap(k, &mut tmp);
                    } else {
                        proof {
                            if m == j {
                                let q = pos_of(size, k as int);
                                lemma_pos_of_flat(size, k as int);
                                assert(old(self).gid_at(q) == Some(j));
                                assert(old(self).found_at(q));
                                assert(old(self).guesses@[j as int] == q);
                                lemma_flat_injective(size, q, pos);
                            }
                        }
                    }
                }
                k += 1;
            }
            proof {
                self.lemma_unregister_done(*old(self), pos, j as int);
            }
        }
    }

    /// After an entry is removed and the cells renumbered, the invariant
    /// holds again.
    proof fn lemma_unregister_done(&self, pre: State, pos: Coord, j: int)
        requires
            pre.wf(),
            pre.in_b(pos),
            pre.found_at(pos),
            pre.gid_at(pos) == Some(j as usize),
            0 <= j < pre.stack().len(),
            self.size == pre.size,
            self.shape == pre.shape,
            self.guess_level == pre.guess_level,
            self.finished == pre.finished,
            self.guesses@ == pre.guesses@.remove(j),
            self.nodes@.len() == pre.nodes@.len(),
            forall|t: int|
                0 <= t < pre.nodes@.len() ==> eq_but_gid(pre.nodes@[t], #[trigger] self.nodes@[t]),
            forall|t: int|
                0 <= t < pre.nodes@.len() && pre.nodes@[t].found()
                    ==> (#[trigger] self.nodes@[t]).gid() == if t == flat_of(pre.size, pos) {
                    None::<usize>
                } else {
                    gid_shift(pre.nodes@[t].gid(), j)
                },
        ensures
            self.wf(),
            self.stack() == pre.stack().remove(j),
            self.gid_at(pos) == None::<usize>,
            forall|q: Coord|
                pre.in_b(q) ==> eq_but_gid(pre.node(q), #[trigger] self.node(q)),
            forall|q: Coord|
                pre.in_b(q) && q != pos && pre.found_at(q) ==> #[trigger] self.gid_at(q)
                    == gid_shift(pre.gid_at(q), j),
            pre.propagated() ==> self.propagated(),
    {
        let size = pre.n();
        lemma_flat_bound(size, pos);
        assert forall|q: Coord| pre.in_b(q) implies eq_but_gid(
            pre.node(q),
            #[trigger] self.node(q),
        ) by {
            lemma_flat_bound(size, q);
        }
        assert forall|q: Coord|
            pre.in_b(q) && q != pos && pre.found_at(q) implies #[trigger] self.gid_at(q)
            == gid_shift(pre.gid_at(q), j) by {
            lemma_flat_bound(size, q);
            if flat_of(size, q) == flat_of(size, pos) {
                lemma_flat_injective(size, q, pos);
            }
        }
        assert(Self::same_grid_found(pre, *self)) by {
            assert forall|q: Coord| pre.in_b(q) implies (#[trigger] pre.found_at(q))
                == self.found_at(q) && (pre.found_at(q) ==> pre.val_at(q) == self.val_at(q)) by {
                lemma_flat_bound(size, q);
            }
        }
        assert forall|q: Coord| self.in_b(q) implies #[trigger] self.node_ok(q) by {
            lemma_flat_bound(size, q);
            assert(pre.in_b(q) && pre.node_ok(q));
            if pre.found_at(q) {
                assert(self.confl_at(q) == pre.confl_at(q));
                assert forall|t: int|
                    0 <= t < self.confl_at(q).len() implies self.in_b(
                    #[trigger] self.confl_at(q)[t],
                ) by {
                    assert(self.confl_at(q)[t] == pre.confl_at(q)[t]);
                }
                assert forall|t1: int, t2: int|
                    0 <= t1 < self.confl_at(q).len() && 0 <= t2 < self.confl_at(q).len() && t1
                        != t2 implies #[trigger] self.confl_at(q)[t1]
                    != #[trigger] self.confl_at(q)[t2] by {
                    assert(self.confl_at(q)[t1] == pre.confl_at(q)[t1]);
                    assert(self.confl_at(q)[t2] == pre.confl_at(q)[t2]);
                }
                if self.gid_at(q) is Some {
                    assert(self.level_at(q) >= 1) by {
                        if q != pos {
                            assert(pre.gid_at(q) is Some);
                        }
                    }
                }
                assert(self.node_ok(q));
            } else {
                assert(self.node(q) == pre.node(q));
            }
        }
        assert forall|a: Coord, b: Coord|
            #![trigger self.has_confl(a, b)]
            #![trigger self.conflicting(a, b)]
            self.in_b(a) && self.in_b(b) implies (self.has_confl(a, b) <==> self.conflicting(
            a,
            b,
        )) by {
            lemma_flat_bound(size, a);
            lemma_flat_bound(size, b);
            assert(pre.has_confl(a, b) <==> pre.conflicting(a, b));
            assert(self.found_at(a) == pre.found_at(a) && self.found_at(b) == pre.found_at(b));
            if pre.found_at(a) {
                assert(self.confl_at(a) == pre.confl_at(a));
                assert(self.val_at(a) == pre.val_at(a));
            }
            if pre.found_at(b) {
                assert(self.val_at(b) == pre.val_at(b));
            }
        }
        assert(self.counts_ok()) by {
            assert forall|q: Coord| pre.in_b(q) implies (#[trigger] pre.found_at(q))
                == self.found_at(q) by {
                lemma_flat_bound(size, q);
            }
            Self::lemma_counts_congr(pre, *self);
        }
        assert(self.stack_ok()) by {
            pre.guesses@.remove_ensures(j);
            crate::regions::lemma_remove_nodup(pre.guesses@, j);
            assert forall|t: int| 0 <= t < self.guesses@.len() implies {
                &&& self.in_b(#[trigger] self.guesses@[t])
                &&& self.found_at(self.guesses@[t])
                &&& self.gid_at(self.guesses@[t]) == Some(t as usize)
            } by {
                let q = self.guesses@[t];
                if t < j {
                    assert(q == pre.guesses@[t]);
                    assert(pre.gid_at(q) == Some(t as usize));
                    assert(q != pos) by {
                        assert(pre.guesses@[j] == pos);
                    }
                } else {
                    assert(q == pre.guesses@[t + 1]);
                    assert(pre.gid_at(q) == Some((t + 1) as usize));
                    assert(q != pos) by {
                        assert(pre.guesses@[j] == pos);
                    }
                }
                lemma_flat_bound(size, q);
            }
            assert forall|p: Coord|
                self.in_b(p) && self.found_at(p) && (#[trigger] self.gid_at(p)) is Some implies
                self.gid_at(p)->Some_0 < self.guesses@.len() && self.guesses@[self.gid_at(
                p,
            )->Some_0 as int] == p by {
                lemma_flat_bound(size, p);
                assert(pre.found_at(p));
                assert(p != pos);
                assert(self.gid_at(p) == gid_shift(pre.gid_at(p), j));
                assert(pre.gid_at(p) is Some);
                let m = pre.gid_at(p)->Some_0 as int;
                assert(m < pre.guesses@.len() && pre.guesses@[m] == p);
                assert(m != j) by {
                    if m == j {
                        assert(pre.guesses@[j] == pos);
                    }
                }
                if m < j {
                    assert(self.guesses@[m] == pre.guesses@[m]);
                } else {
                    assert(self.guesses@[m - 1] == pre.guesses@[m]);
                }
            }
        }
        if pre.propagated() {
            assert forall|p: Coord, v: int|
                #![trigger self.poss_at(p)[v]]
                self.in_b(p) && !self.found_at(p) && 0 <= v < self.n() implies (self.poss_at(
                p,
            )[v] <==> !self.blocked(p, v)) by {
                lemma_flat_bound(size, p);
                assert(!pre.found_at(p));
                assert(self.node(p) == pre.node(p));
                assert(pre.poss_at(p)[v] == self.poss_at(p)[v]);
                assert(pre.poss_at(p)[v] <==> !pre.blocked(p, v));
                Self::lemma_blocked_congr(pre, *self, p, v);
            }
        }
    }

    /// The guess stack stays in step when neither it nor any cell's
    /// determined-ness or stack index changed.
    proof fn lemma_stack_ok_congr(pre: State, post: State)
        requires
            pre.stack_ok(),
            post.n() == pre.n(),
            post.size == pre.size,
            post.stack() == pre.stack(),
            forall|q: Coord|
                pre.in_b(q) ==> (#[trigger] pre.found_at(q)) == post.found_at(q) && (pre.found_at(
                    q,
                ) ==> pre.gid_at(q) == post.gid_at(q) && pre.level_at(q) == post.level_at(q)),
        ensures
            post.stack_ok(),
    {
        assert forall|i1: int, i2: int|
            0 <= i1 < i2 < post.guesses@.len() implies post.level_at(#[trigger] post.guesses@[i1])
            < post.level_at(#[trigger] post.guesses@[i2]) by {
            assert(pre.guesses@[i1] == post.guesses@[i1] && pre.guesses@[i2] == post.guesses@[i2]);
            assert(pre.in_b(pre.guesses@[i1]) && pre.found_at(pre.guesses@[i1]));
            assert(pre.in_b(pre.guesses@[i2]) && pre.found_at(pre.guesses@[i2]));
            assert(pre.level_at(pre.guesses@[i1]) < pre.level_at(pre.guesses@[i2]));
        }
        assert forall|t: int| 0 <= t < post.guesses@.len() implies {
            &&& post.in_b(#[trigger] post.guesses@[t])
            &&& post.found_at(post.guesses@[t])
            &&& post.gid_at(post.guesses@[t]) == Some(t as usize)
        } by {
            assert(pre.guesses@[t] == post.guesses@[t]);
            assert(pre.found_at(pre.guesses@[t]));
        }
        assert forall|p: Coord|
            post.in_b(p) && post.found_at(p) && (#[trigger] post.gid_at(p)) is Some implies
            post.gid_at(p)->Some_0 < post.guesses@.len() && post.guesses@[post.gid_at(
            p,
        )->Some_0 as int] == p by {
            assert(pre.found_at(p));
            assert(pre.gid_at(p) == post.gid_at(p));
            assert(pre.gid_at(p) is Some);
        }
    }

    /// Candidate exactness carries over when no cell changed its
    /// determined-ness, value or candidate flags.
    proof fn lemma_propagated_congr(pre: State, post: State)
        requires
            pre.propagated(),
            post.n() == pre.n(),
            post.shape_s() == pre.shape_s(),
            forall|q: Coord|
                pre.in_b(q) ==> (#[trigger] pre.found_at(q)) == post.found_at(q) && (pre.found_at(
                    q,
                ) ==> pre.val_at(q) == post.val_at(q)) && (!pre.found_at(q) ==> pre.poss_at(q)
                    == post.poss_at(q)),
        ensures
            post.propagated(),
    {
        assert forall|p: Coord, v: int|
            #![trigger post.poss_at(p)[v]]
            post.in_b(p) && !post.found_at(p) && 0 <= v < post.n() implies (post.poss_at(p)[v]
            <==> !post.blocked(p, v)) by {
            assert(!pre.found_at(p));
            assert(pre.poss_at(p) == post.poss_at(p));
            assert(pre.poss_at(p)[v] <==> !pre.blocked(p, v));
            Self::lemma_blocked_congr(pre, post, p, v);
        }
    }

    /// Withdraws every conflict record held against `pos` across the grid;
    /// the cell at `pos` itself is untouched.
    #[verifier::spinoff_prover]
    fn clear_conflicts(&mut self, pos: Coord)
        requires
            old(self).wf(),
            old(self).in_b(pos),
        ensures
            final(self).dims_ok(),
            final(self).nodes_ok(),
            final(self).counts_ok(),
            final(self).stack_ok(),
            final(self).n() == old(self).n(),
            final(self).shape_s() == old(self).shape_s(),
            final(self).lvl() == old(self).lvl(),
            final(self).stack() == old(self).stack(),
            final(self).det_count() == old(self).det_count(),
            final(self).total_count() == old(self).total_count(),
            forall|q: Coord|
                old(self).in_b(q) ==> eq_but_confl(old(self).node(q), #[trigger] final(self).node(
                    q,
                )),
            final(self).node(pos) == old(self).node(pos),
            forall|a: Coord, b: Coord|
                #![trigger final(self).has_confl(a, b)]
                old(self).in_b(a) && old(self).in_b(b) && b != pos ==> (final(self).has_confl(a, b)
                    <==> old(self).has_confl(a, b)),
            forall|a: Coord|
                old(self).in_b(a) && a != pos ==> !(#[trigger] final(self).has_confl(a, pos)),
            old(self).propagated() ==> final(self).propagated(),
    {
        let size = self.size;
        let total = size * size;
        let i = flat_ix(size, pos);
        let mut k: usize = 0;
        while k < total
            invariant
                k <= total,
                i == flat_of(size, pos),
                i < total,
                self.size == old(self).size,
                self.shape == old(self).shape,
                self.guess_level == old(self).guess_level,
                self.finished == old(self).finished,
                self.guesses == old(self).guesses,
                self.nodes@.len() == old(self).nodes@.len(),
                forall|t: int|
                    0 <= t < total ==> eq_but_confl(old(self).nodes@[t], #[trigger] self.nodes@[t]),
                forall|t: int| k <= t < total ==> #[trigger] self.nodes@[t] == old(self).nodes@[t],
                self.nodes@[i as int] == old(self).nodes@[i as int],
                forall|t: int|
                    0 <= t < k && t != i && old(self).nodes@[t].found() ==> {
                        &&& (forall|c: Coord|
                            (#[trigger] self.nodes@[t].confl().contains(c)) <==> (old(
                                self,
                            ).nodes@[t].confl().contains(c) && c != pos))
                        &&& (forall|j1: int, j2: int|
                            0 <= j1 < self.nodes@[t].confl().len() && 0 <= j2
                                < self.nodes@[t].confl().len() && j1 != j2
                                ==> #[trigger] self.nodes@[t].confl()[j1]
                                != #[trigger] self.nodes@[t].confl()[j2])
                    },
            decreases total - k,
        {
            if k != i {
                let ghost pre_node = self.nodes@[k as int];
                let mut tmp = Node::Possible(Vec::new());
                self.nodes.set_and_swap(k, &mut tmp);
                tmp.remove_conflict(pos);
                self.nodes.set_and_swap(k, &mut tmp);
                proof {
                    if pre_node.found() {
                        let q = pos_of(size, k as int);
                        lemma_pos_of_flat(size, k as int);
                        assert(old(self).node_ok(q));
                        assert(old(self).nodes@[k as int] == pre_node);
                        assert(old(self).confl_at(q) == pre_node.confl());
                        let cs = pre_node.confl();
                        let newn = self.nodes@[k as int];
                        assert forall|j1: int, j2: int|
                            0 <= j1 < cs.len() && 0 <= j2 < cs.len() && j1 != j2 implies cs[j1]
                            != cs[j2] by {
                            assert(old(self).confl_at(q)[j1] != old(self).confl_at(q)[j2]);
                        }
                        if cs.contains(pos) {
                            let jj = choose|jj: int|
                                {
                                    &&& 0 <= jj < cs.len()
                                    &&& cs[jj] == pos
                                    &&& (forall|kk: int| 0 <= kk < jj ==> cs[kk] != pos)
                                    &&& newn.confl() == cs.remove(jj)
                                };
                            crate::regions::lemma_remove_nodup(cs, jj);
                            assert forall|c: Coord| newn.confl().contains(c) <==> (cs.contains(c)
                                && c != pos) by {
                                assert(cs.remove(jj).contains(c) <==> (cs.contains(c) && c
                                    != cs[jj]));
                            }
                            assert forall|j1: int, j2: int|
                                0 <= j1 < newn.confl().len() && 0 <= j2 < newn.confl().len() && j1
                                    != j2 implies newn.confl()[j1] != newn.confl()[j2] by {
                                assert(cs.remove(jj)[j1] != cs.remove(jj)[j2]);
                            }
                        } else {
                            assert(newn.confl() == cs);
                            assert forall|c: Coord| newn.confl().contains(c) <==> (cs.contains(c)
                                && c != pos) by {
                                if c == pos {
                                    assert(!cs.contains(pos));
                                }
                            }
                            assert forall|j1: int, j2: int|
                                0 <= j1 < newn.confl().len() && 0 <= j2 < newn.confl().len() && j1
                                    != j2 implies newn.confl()[j1] != newn.confl()[j2] by {
                                assert(cs[j1] != cs[j2]);
                            }
                        }
                    }
                }
            }
            k += 1;
        }
        proof {
            self.lemma_clear_conflicts_done(*old(self), pos);
        }
    }

    /// After the withdrawal scan, everything but the conflict records stands
    /// as before, and no cell records a conflict with `pos` any more.
    proof fn lemma_clear_conflicts_done(&self, pre: State, pos: Coord)
        requires
            pre.wf(),
            pre.in_b(pos),
            self.size == pre.size,
            self.shape == pre.shape,
            self.guess_level == pre.guess_level,
            self.finished == pre.finished,
            self.guesses == pre.guesses,
            self.nodes@.len() == pre.nodes@.len(),
            forall|t: int|
                0 <= t < pre.nodes@.len() ==> eq_but_confl(pre.nodes@[t], #[trigger] self.nodes@[t]),
            self.nodes@[flat_of(pre.size, pos)] == pre.nodes@[flat_of(pre.size, pos)],
            forall|t: int|
                0 <= t < pre.nodes@.len() && t != flat_of(pre.size, pos) && pre.nodes@[t].found()
                    ==> {
                    &&& (forall|c: Coord|
                        (#[trigger] self.nodes@[t].confl().contains(c)) <==> (pre.nodes@[t].confl().contains(
                            c,
                        ) && c != pos))
                    &&& (forall|j1: int, j2: int|
                        0 <= j1 < self.nodes@[t].confl().len() && 0 <= j2
                            < self.nodes@[t].confl().len() && j1 != j2
                            ==> #[trigger] self.nodes@[t].confl()[j1]
                            != #[trigger] self.nodes@[t].confl()[j2])
                },
        ensures
            self.dims_ok(),
            self.nodes_ok(),
            self.counts_ok(),
            self.stack_ok(),
            forall|q: Coord|
                pre.in_b(q) ==> eq_but_confl(pre.node(q), #[trigger] self.node(q)),
            self.node(pos) == pre.node(pos),
            forall|a: Coord, b: Coord|
                #![trigger self.has_confl(a, b)]
                pre.in_b(a) && pre.in_b(b) && b != pos ==> (self.has_confl(a, b)
                    <==> pre.has_confl(a, b)),
            forall|a: Coord|
                pre.in_b(a) && a != pos ==> !(#[trigger] self.has_confl(a, pos)),
            pre.propagated() ==> self.propagated(),
    {
        let size = pre.n();
        lemma_flat_bound(size, pos);
        assert forall|q: Coord| pre.in_b(q) implies eq_but_confl(
            pre.node(q),
            #[trigger] self.node(q),
        ) by {
            lemma_flat_bound(size, q);
        }
        assert forall|q: Coord| pre.in_b(q) implies (#[trigger] pre.found_at(q)) == self.found_at(
            q,
        ) && (pre.found_at(q) ==> pre.val_at(q) == self.val_at(q) && pre.gid_at(q) == self.gid_at(
            q,
        ) && pre.level_at(q) == self.level_at(q)) && (!pre.found_at(q) ==> pre.node(q)
            == self.node(q)) by {
            lemma_flat_bound(size, q);
        }
        assert forall|q: Coord| self.in_b(q) implies #[trigger] self.node_ok(q) by {
            lemma_flat_bound(size, q);
            assert(pre.in_b(q) && pre.node_ok(q));
            if pre.found_at(q) {
                if q == pos {
                    assert(self.node(q) == pre.node(q));
                    assert(self.confl_at(q) == pre.confl_at(q));
                    assert forall|t: int|
                        0 <= t < self.confl_at(q).len() implies self.in_b(
                        #[trigger] self.confl_at(q)[t],
                    ) by {
                        assert(self.confl_at(q)[t] == pre.confl_at(q)[t]);
                    }
                    assert forall|t1: int, t2: int|
                        0 <= t1 < self.confl_at(q).len() && 0 <= t2 < self.confl_at(q).len() && t1
                            != t2 implies #[trigger] self.confl_at(q)[t1]
                        != #[trigger] self.confl_at(q)[t2] by {
                        assert(self.confl_at(q)[t1] == pre.confl_at(q)[t1]);
                        assert(self.confl_at(q)[t2] == pre.confl_at(q)[t2]);
                    }
                } else {
                    if flat_of(size, q) == flat_of(size, pos) {
                        lemma_flat_injective(size, q, pos);
                    }
                    assert forall|t: int|
                        0 <= t < self.confl_at(q).len() implies self.in_b(
                        #[trigger] self.confl_at(q)[t],
                    ) by {
                        let c = self.confl_at(q)[t];
                        assert(self.confl_at(q).contains(c));
                        assert(pre.confl_at(q).contains(c));
                        let tt = choose|tt: int|
                            0 <= tt < pre.confl_at(q).len() && pre.confl_at(q)[tt] == c;
                        assert(pre.in_b(pre.confl_at(q)[tt]));
                    }
                }
                assert(self.node_ok(q));
            } else {
                assert(self.node(q) == pre.node(q));
            }
        }
        assert(self.counts_ok()) by {
            Self::lemma_counts_congr(pre, *self);
        }
        Self::lemma_stack_ok_congr(pre, *self);
        assert forall|a: Coord, b: Coord|
            #![trigger self.has_confl(a, b)]
            pre.in_b(a) && pre.in_b(b) && b != pos implies (self.has_confl(a, b)
            <==> pre.has_confl(a, b)) by {
            lemma_flat_bound(size, a);
            if a == pos {
                assert(self.node(a) == pre.node(a));
                assert(self.found_at(a) ==> self.confl_at(a) == pre.confl_at(a));
            } else if flat_of(size, a) == flat_of(size, pos) {
                lemma_flat_injective(size, a, pos);
            }
        }
        assert forall|a: Coord| pre.in_b(a) && a != pos implies !(#[trigger] self.has_confl(
            a,
            pos,
        )) by {
            lemma_flat_bound(size, a);
            if flat_of(size, a) == flat_of(size, pos) {
                lemma_flat_injective(size, a, pos);
            }
        }
        if pre.propagated() {
            Self::lemma_propagated_congr(pre, *self);
        }
    }

    /// Records the conflicts of the freshly determined cell at `pos`: a
    /// symmetric edge to every determined cell that constrains `pos` and
    /// holds the same value.
    #[verifier::spinoff_prover]
    fn set_conflicts(&mut self, pos: Coord)
        requires
            old(self).dims_ok(),
            old(self).nodes_ok(),
            old(self).counts_ok(),
            old(self).stack_ok(),
            old(self).in_b(pos),
            old(self).found_at(pos),
            old(self).confl_at(pos).len() == 0,
            forall|a: Coord, b: Coord|
                #![trigger old(self).has_confl(a, b)]
                old(self).in_b(a) && old(self).in_b(b) && a != pos && b != pos ==> (old(
                    self,
                ).has_confl(a, b) <==> old(self).conflicting(a, b)),
            forall|a: Coord|
                old(self).in_b(a) && a != pos ==> !(#[trigger] old(self).has_confl(a, pos)),
        ensures
            final(self).wf(),
            final(self).n() == old(self).n(),
            final(self).shape_s() == old(self).shape_s(),
            final(self).lvl() == old(self).lvl(),
            final(self).stack() == old(self).stack(),
            final(self).det_count() == old(self).det_count(),
            final(self).total_count() == old(self).total_count(),
            forall|q: Coord|
                old(self).in_b(q) ==> eq_but_confl(old(self).node(q), #[trigger] final(self).node(
                    q,
                )),
            forall|q: Coord|
                old(self).in_b(q) && !old(self).found_at(q) ==> #[trigger] final(self).node(q)
                    == old(self).node(q),
            old(self).propagated() ==> final(self).propagated(),
    {
        let size = self.size;
        let total = size * size;
        let i = flat_ix(size, pos);
        let v: usize = match &self.nodes[i] {
            Node::Found(d) => d.num,
            Node::Possible(_) => 0,
        };
        proof {
            assert(v == old(self).val_at(pos));
        }
        let mut k: usize = 0;
        while k < total
            invariant
                k <= total,
                i == flat_of(size, pos),
                i < total,
                self.size == old(self).size,
                self.shape == old(self).shape,
                self.guess_level == old(self).guess_level,
                self.finished == old(self).finished,
                self.guesses == old(self).guesses,
                self.nodes@.len() == old(self).nodes@.len(),
                old(self).found_at(pos),
                v == old(self).val_at(pos),
                forall|t: int|
                    0 <= t < total ==> eq_but_confl(old(self).nodes@[t], #[trigger] self.nodes@[t]),
                forall|t: int|
                    k <= t < total && t != i ==> #[trigger] self.nodes@[t] == old(self).nodes@[t],
                forall|c: Coord|
                    (#[trigger] self.nodes@[i as int].confl().contains(c)) <==> (old(
                        self,
                    ).conflicting(pos, c) && flat_of(size, c) < k),
                forall|j1: int, j2: int|
                    0 <= j1 < self.nodes@[i as int].confl().len() && 0 <= j2
                        < self.nodes@[i as int].confl().len() && j1 != j2
                        ==> #[trigger] self.nodes@[i as int].confl()[j1]
                        != #[trigger] self.nodes@[i as int].confl()[j2],
                forall|t: int|
                    0 <= t < k && t != i && old(self).nodes@[t].found() ==> {
                        &&& (forall|c: Coord|
                            (#[trigger] self.nodes@[t].confl().contains(c)) <==> (old(
                                self,
                            ).nodes@[t].confl().contains(c) || (c == pos && old(self).conflicting(
                                pos_of(size, t),
                                pos,
                            ))))
                        &&& (forall|j1: int, j2: int|
                            0 <= j1 < self.nodes@[t].confl().len() && 0 <= j2
                                < self.nodes@[t].confl().len() && j1 != j2
                                ==> #[trigger] self.nodes@[t].confl()[j1]
                                != #[trigger] self.nodes@[t].confl()[j2])
                    },
            decreases total - k,
        {
            let q = pos_at(size, k);
            let hit: bool = if k != i && same_unit_ix(self.shape, pos, q) {
                match &self.nodes[k] {
                    Node::Found(d) => d.num == v,
                    Node::Possible(_) => false,
                }
            } else {
                false
            };
            proof {
                if k != i {
                    assert(q != pos);
                    assert(self.nodes@[k as int] == old(self).nodes@[k as int]);
                    assert(old(self).node(q) == old(self).nodes@[k as int]);
                } else {
                    lemma_flat_injective(size, q, pos);
                    assert(q == pos);
                    assert(!old(self).same_u(pos, q));
                }
                assert(hit == old(self).conflicting(pos, q));
            }
            if hit {
                let ghost pos_list = self.nodes@[i as int].confl();
                let ghost q_list = self.nodes@[k as int].confl();
                let mut tmp = Node::Possible(Vec::new());
                self.nodes.set_and_swap(i, &mut tmp);
                tmp.add_conflict(q);
                self.nodes.set_and_swap(i, &mut tmp);
                let mut tmp2 = Node::Possible(Vec::new());
                self.nodes.set_and_swap(k, &mut tmp2);
                tmp2.add_conflict(pos);
                self.nodes.set_and_swap(k, &mut tmp2);
                proof {
                    assert(!pos_list.contains(q)) by {
                        if pos_list.contains(q) {
                            assert(flat_of(size, q) < k);
                        }
                    }
                    crate::regions::lemma_push_nodup(pos_list, q);
                    assert(self.nodes@[i as int].confl() == pos_list.push(q));
                    assert forall|c: Coord|
                        (#[trigger] self.nodes@[i as int].confl().contains(c)) <==> (old(
                            self,
                        ).conflicting(pos, c) && flat_of(size, c) < k + 1) by {
                        assert(self.nodes@[i as int].confl().contains(c) == pos_list.push(
                            q,
                        ).contains(c));
                        assert(pos_list.push(q).contains(c) <==> (pos_list.contains(c) || c == q));
                        if c == q {
                            assert(old(self).conflicting(pos, q));
                        } else if old(self).conflicting(pos, c) && flat_of(size, c) < k + 1 {
                            if flat_of(size, c) == k {
                                lemma_flat_injective(size, c, q);
                            }
                        }
                    }
                    assert forall|j1: int, j2: int|
                        0 <= j1 < self.nodes@[i as int].confl().len() && 0 <= j2
                            < self.nodes@[i as int].confl().len() && j1 != j2 implies
                        #[trigger] self.nodes@[i as int].confl()[j1]
                        != #[trigger] self.nodes@[i as int].confl()[j2] by {
                        assert(pos_list.push(q)[j1] != pos_list.push(q)[j2]);
                    }
                    let old_q_node = old(self).nodes@[k as int];
                    assert(old(self).node(q) == old_q_node);
                    assert(old(self).node_ok(q));
                    assert(!q_list.contains(pos)) by {
                        assert(q_list == old_q_node.confl());
                        assert(!old(self).has_confl(q, pos));
                    }
                    assert forall|j1: int, j2: int|
                        0 <= j1 < q_list.len() && 0 <= j2 < q_list.len() && j1 != j2 implies
                        q_list[j1] != q_list[j2] by {
                        assert(old(self).confl_at(q)[j1] != old(self).confl_at(q)[j2]);
                    }
                    crate::regions::lemma_push_nodup(q_list, pos);
                    assert(self.nodes@[k as int].confl() == q_list.push(pos));
                    assert(old(self).conflicting(pos_of(size, k as int), pos)) by {
                        assert(pos_of(size, k as int) == q);
                    }
                    assert forall|c: Coord|
                        (#[trigger] self.nodes@[k as int].confl().contains(c)) <==> (old(
                            self,
                        ).nodes@[k as int].confl().contains(c) || (c == pos && old(
                            self,
                        ).conflicting(pos_of(size, k as int), pos))) by {
                        assert(self.nodes@[k as int].confl().contains(c) == q_list.push(
                            pos,
                        ).contains(c));
                        assert(q_list.push(pos).contains(c) <==> (q_list.contains(c) || c == pos));
                        assert(q_list == old(self).nodes@[k as int].confl());
                    }
                    assert forall|j1: int, j2: int|
                        0 <= j1 < self.nodes@[k as int].confl().len() && 0 <= j2
                            < self.nodes@[k as int].confl().len() && j1 != j2 implies
                        #[trigger] self.nodes@[k as int].confl()[j1]
                        != #[trigger] self.nodes@[k as int].confl()[j2] by {
                        assert(q_list.push(pos)[j1] != q_list.push(pos)[j2]);
                    }
                }
            } else {
                proof {
                    assert forall|c: Coord|
                        (#[trigger] self.nodes@[i as int].confl().contains(c)) <==> (old(
                            self,
                        ).conflicting(pos, c) && flat_of(size, c) < k + 1) by {
                        if old(self).conflicting(pos, c) && flat_of(size, c) == k {
                            lemma_flat_injective(size, c, q);
                            assert(c == q);
                            assert(old(self).conflicting(pos, q));
                        }
                    }
                    if k != i && old(self).nodes@[k as int].found() {
                        assert(pos_of(size, k as int) == q);
                        assert(!old(self).conflicting(pos_of(size, k as int), pos)) by {
                            assert(old(self).conflicting(q, pos) == old(self).conflicting(
                                pos,
                                q,
                            ));
                        }
                        assert(self.nodes@[k as int] == old(self).nodes@[k as int]);
                        assert(old(self).node_ok(q));
                        assert(old(self).confl_at(q) == self.nodes@[k as int].confl());
                        assert forall|j1: int, j2: int|
                            0 <= j1 < self.nodes@[k as int].confl().len() && 0 <= j2
                                < self.nodes@[k as int].confl().len() && j1 != j2 implies
                            #[trigger] self.nodes@[k as int].confl()[j1]
                            != #[trigger] self.nodes@[k as int].confl()[j2] by {
                            assert(old(self).confl_at(q)[j1] != old(self).confl_at(q)[j2]);
                        }
                    }
                }
            }
            proof {
                assert forall|t: int|
                    0 <= t < k + 1 && t != i && old(self).nodes@[t].found() implies (forall|
                    c: Coord,
                |
                    (#[trigger] self.nodes@[t].confl().contains(c)) <==> (old(
                        self,
                    ).nodes@[t].confl().contains(c) || (c == pos && old(self).conflicting(
                        pos_of(size, t),
                        pos,
                    )))) by {
                    if t == k {
                        assert(t != i);
                    } else {
                        assert(t < k);
                    }
                }
            }
            k += 1;
        }
        proof {
            self.lemma_set_conflicts_done(*old(self), pos);
        }
    }

    /// After the recording scan the conflict records are exact everywhere.
    proof fn lemma_set_conflicts_done(&self, pre: State, pos: Coord)
        requires
            pre.dims_ok(),
            pre.nodes_ok(),
            pre.counts_ok(),
            pre.stack_ok(),
            pre.in_b(pos),
            pre.found_at(pos),
            forall|a: Coord, b: Coord|
                #![trigger pre.has_confl(a, b)]
                pre.in_b(a) && pre.in_b(b) && a != pos && b != pos ==> (pre.has_confl(a, b)
                    <==> pre.conflicting(a, b)),
            forall|a: Coord|
                pre.in_b(a) && a != pos ==> !(#[trigger] pre.has_confl(a, pos)),
            self.size == pre.size,
            self.shape == pre.shape,
            self.guess_level == pre.guess_level,
            self.finished == pre.finished,
            self.guesses == pre.guesses,
            self.nodes@.len() == pre.nodes@.len(),
            forall|t: int|
                0 <= t < pre.nodes@.len() ==> eq_but_confl(pre.nodes@[t], #[trigger] self.nodes@[t]),
            forall|c: Coord|
                (#[trigger] self.nodes@[flat_of(pre.size, pos)].confl().contains(c)) <==> (
                pre.conflicting(pos, c) && flat_of(pre.size, c) < pre.size * pre.size),
            forall|j1: int, j2: int|
                0 <= j1 < self.nodes@[flat_of(pre.size, pos)].confl().len() && 0 <= j2
                    < self.nodes@[flat_of(pre.size, pos)].confl().len() && j1 != j2
                    ==> #[trigger] self.nodes@[flat_of(pre.size, pos)].confl()[j1]
                    != #[trigger] self.nodes@[flat_of(pre.size, pos)].confl()[j2],
            forall|t: int|
                0 <= t < pre.nodes@.len() && t != flat_of(pre.size, pos) && pre.nodes@[t].found()
                    ==> {
                    &&& (forall|c: Coord|
                        (#[trigger] self.nodes@[t].confl().contains(c)) <==> (pre.nodes@[t].confl().contains(
                            c,
                        ) || (c == pos && pre.conflicting(pos_of(pre.size, t), pos))))
                    &&& (forall|j1: int, j2: int|
                        0 <= j1 < self.nodes@[t].confl().len() && 0 <= j2
                            < self.nodes@[t].confl().len() && j1 != j2
                            ==> #[trigger] self.nodes@[t].confl()[j1]
                            != #[trigger] self.nodes@[t].confl()[j2])
                },
        ensures
            self.wf(),
            forall|q: Coord|
                pre.in_b(q) ==> eq_but_confl(pre.node(q), #[trigger] self.node(q)),
            forall|q: Coord|
                pre.in_b(q) && !pre.found_at(q) ==> #[trigger] self.node(q) == pre.node(q),
            pre.propagated() ==> self.propagated(),
    {
        let size = pre.n();
        lemma_flat_bound(size, pos);
        assert forall|q: Coord| pre.in_b(q) implies eq_but_confl(
            pre.node(q),
            #[trigger] self.node(q),
        ) && (!pre.found_at(q) ==> self.node(q) == pre.node(q)) by {
            lemma_flat_bound(size, q);
        }
        assert forall|q: Coord| pre.in_b(q) implies (#[trigger] pre.found_at(q)) == self.found_at(
            q,
        ) && (pre.found_at(q) ==> pre.val_at(q) == self.val_at(q) && pre.gid_at(q) == self.gid_at(
            q,
        ) && pre.level_at(q) == self.level_at(q)) && (!pre.found_at(q) ==> pre.node(q)
            == self.node(q)) by {
            lemma_flat_bound(size, q);
        }
        assert forall|q: Coord| self.in_b(q) implies #[trigger] self.node_ok(q) by {
            lemma_flat_bound(size, q);
            assert(pre.in_b(q) && pre.node_ok(q));
            if pre.found_at(q) {
                if q == pos {
                    assert forall|t: int|
                        0 <= t < self.confl_at(q).len() implies self.in_b(
                        #[trigger] self.confl_at(q)[t],
                    ) by {
                        let c = self.confl_at(q)[t];
                        assert(self.confl_at(q).contains(c));
                        assert(pre.conflicting(pos, c));
                    }
                } else {
                    if flat_of(size, q) == flat_of(size, pos) {
                        lemma_flat_injective(size, q, pos);
                    }
                    assert forall|t: int|
                        0 <= t < self.confl_at(q).len() implies self.in_b(
                        #[trigger] self.confl_at(q)[t],
                    ) by {
                        let c = self.confl_at(q)[t];
                        assert(self.confl_at(q).contains(c));
                        if pre.confl_at(q).contains(c) {
                            let tt = choose|tt: int|
                                0 <= tt < pre.confl_at(q).len() && pre.confl_at(q)[tt] == c;
                            assert(pre.in_b(pre.confl_at(q)[tt]));
                        }
                    }
                }
                assert(self.node_ok(q));
            } else {
                assert(self.node(q) == pre.node(q));
            }
        }
        assert forall|a: Coord, b: Coord|
            #![trigger self.has_confl(a, b)]
            #![trigger self.conflicting(a, b)]
            self.in_b(a) && self.in_b(b) implies (self.has_confl(a, b) <==> self.conflicting(
            a,
            b,
        )) by {
            lemma_flat_bound(size, a);
            lemma_flat_bound(size, b);
            assert(self.conflicting(a, b) == pre.conflicting(a, b));
            if a == pos {
                assert(self.has_confl(pos, b) <==> (pre.conflicting(pos, b) && flat_of(size, b)
                    < size * size));
                if pre.conflicting(pos, b) {
                    lemma_flat_bound(size, b);
                }
            } else {
                if flat_of(size, a) == flat_of(size, pos) {
                    lemma_flat_injective(size, a, pos);
                }
                if pre.found_at(a) {
                    lemma_pos_of_flat(size, flat_of(size, a));
                    lemma_flat_injective(size, pos_of(size, flat_of(size, a)), a);
                    assert(self.confl_at(a).contains(b) <==> (pre.confl_at(a).contains(b) || (b
                        == pos && pre.conflicting(a, pos))));
                    if b == pos {
                        assert(!pre.has_confl(a, pos));
                        assert(pre.conflicting(a, pos) == pre.conflicting(pos, a));
                    } else {
                        assert(pre.has_confl(a, b) <==> pre.conflicting(a, b));
                    }
                } else {
                    assert(!self.found_at(a));
                }
            }
        }
        assert(self.counts_ok()) by {
            Self::lemma_counts_congr(pre, *self);
        }
        Self::lemma_stack_ok_congr(pre, *self);
        if pre.propagated() {
            Self::lemma_propagated_congr(pre, *self);
        }
    }

    /// Every region sequence of the grid is duplicate-free, lies in the
    /// grid, and membership is decided by the region's coordinate.
    proof fn lemma_all_distinct(size: usize)
        requires
            size >= 1,
            size * size <= usize::MAX,
        ensures
            forall|i1: int, i2: int|
                0 <= i1 < size * size && 0 <= i2 < size * size && i1 != i2 ==> all_seq(
                    size,
                )[i1] != all_seq(size)[i2],
            forall|y: usize, k1: int, k2: int|
                y < size && 0 <= k1 < size && 0 <= k2 < size && k1 != k2 ==> row_seq(size, y)[k1]
                    != row_seq(size, y)[k2],
            forall|x: usize, k1: int, k2: int|
                x < size && 0 <= k1 < size && 0 <= k2 < size && k1 != k2 ==> col_seq(size, x)[k1]
                    != col_seq(size, x)[k2],
    {
        lemma_all_seq(size);
        assert forall|i1: int, i2: int|
            0 <= i1 < size * size && 0 <= i2 < size * size && i1 != i2 implies all_seq(size)[i1]
            != all_seq(size)[i2] by {
            assert(flat_of(size, all_seq(size)[i1]) == i1);
            assert(flat_of(size, all_seq(size)[i2]) == i2);
        }
    }

    /// The counters stay exact when one open cell at `pos` becomes
    /// determined and the counter for each region of `pos` is stepped up.
    proof fn lemma_counts_inc(pre: State, post: State, pos: Coord)
        requires
            pre.counts_ok(),
            pre.dims_ok(),
            post.size == pre.size,
            post.shape == pre.shape,
            post.nodes@.len() == pre.nodes@.len(),
            pre.in_b(pos),
            !pre.found_at(pos),
            post.found_at(pos),
            forall|q: Coord|
                pre.in_b(q) && q != pos ==> (#[trigger] pre.found_at(q)) == post.found_at(q),
            post.finished.wf(),
            post.finished.sz() == pre.finished.sz(),
            post.finished.shape_s() == pre.finished.shape_s(),
            post.finished.total_s() == pre.finished.total_s(),
            post.finished.current_s() == pre.finished.current_s() + 1,
            post.finished.rows_s() == pre.finished.rows_s().update(
                pos.y as int,
                (pre.finished.rows_s()[pos.y as int] + 1) as usize,
            ),
            post.finished.columns_s() == pre.finished.columns_s().update(
                pos.x as int,
                (pre.finished.columns_s()[pos.x as int] + 1) as usize,
            ),
            post.finished.blocks_s() == pre.finished.blocks_s().update(
                crate::coord::block_of(pre.shape, pos),
                (pre.finished.blocks_s()[crate::coord::block_of(pre.shape, pos)] + 1) as usize,
            ),
        ensures
            post.counts_ok(),
    {
        let size = pre.n();
        let shape = pre.shape_s();
        lemma_flat_bound(size, pos);
        Self::lemma_all_distinct(size);
        lemma_all_seq(size);
        assert forall|q: Coord|
            in_grid(size, q) && q != pos implies pre.nodes@[flat_of(size, q)].found()
            == post.nodes@[#[trigger] flat_of(size, q)].found() by {
            assert(pre.found_at(q) == post.found_at(q));
        }
        crate::coord::lemma_block_bound(size, shape, pos);
        assert(size <= size * size && size + 1 <= usize::MAX) by (nonlinear_arith)
            requires
                size >= 1,
                size * size <= usize::MAX,
        ;
        assert(count_found_all(post.nodes@, size) == count_found_all(pre.nodes@, size) + 1) by {
            lemma_count_found_update(pre.nodes@, post.nodes@, size, all_seq(size), pos);
            assert(all_seq(size).contains(pos)) by {
                assert(all_seq(size)[flat_of(size, pos)] == pos);
            }
        }
        assert forall|y: usize| y < size implies #[trigger] post.finished.rows_s()[y as int]
            == count_found_in(post.nodes@, size, row_seq(size, y)) by {
            lemma_row_seq(size, y);
            lemma_count_found_update(pre.nodes@, post.nodes@, size, row_seq(size, y), pos);
            lemma_count_found_bounds(pre.nodes@, size, row_seq(size, y));
            let upd = pre.finished.rows_s().update(
                pos.y as int,
                (pre.finished.rows_s()[pos.y as int] + 1) as usize,
            );
            assert(post.finished.rows_s()[y as int] == upd[y as int]);
            if y == pos.y {
                assert(row_seq(size, y).contains(pos)) by {
                    assert(row_seq(size, y)[pos.x as int] == pos);
                }
                assert(count_found_in(post.nodes@, size, row_seq(size, y)) == count_found_in(
                    pre.nodes@,
                    size,
                    row_seq(size, y),
                ) + 1);
                assert(pre.finished.rows_s()[pos.y as int] == count_found_in(
                    pre.nodes@,
                    size,
                    row_seq(size, y),
                ));
                assert(pre.finished.rows_s()[pos.y as int] + 1 <= usize::MAX);
                assert(upd[y as int] == (pre.finished.rows_s()[pos.y as int] + 1) as usize);
            } else {
                assert(!row_seq(size, y).contains(pos)) by {
                    if row_seq(size, y).contains(pos) {
                        let k = choose|k: int|
                            0 <= k < row_seq(size, y).len() && row_seq(size, y)[k] == pos;
                        assert(row_seq(size, y)[k].y == y);
                    }
                }
                assert(count_found_in(post.nodes@, size, row_seq(size, y)) == count_found_in(
                    pre.nodes@,
                    size,
                    row_seq(size, y),
                ));
                assert(pre.finished.rows_s()[y as int] == count_found_in(
                    pre.nodes@,
                    size,
                    row_seq(size, y),
                ));
                assert(upd[y as int] == pre.finished.rows_s()[y as int]);
            }
        }
        assert forall|x: usize| x < size implies #[trigger] post.finished.columns_s()[x as int]
            == count_found_in(post.nodes@, size, col_seq(size, x)) by {
            lemma_col_seq(size, x);
            lemma_count_found_update(pre.nodes@, post.nodes@, size, col_seq(size, x), pos);
            lemma_count_found_bounds(pre.nodes@, size, col_seq(size, x));
            let upd = pre.finished.columns_s().update(
                pos.x as int,
                (pre.finished.columns_s()[pos.x as int] + 1) as usize,
            );
            assert(post.finished.columns_s()[x as int] == upd[x as int]);
            if x == pos.x {
                assert(col_seq(size, x).contains(pos)) by {
                    assert(col_seq(size, x)[pos.y as int] == pos);
                }
            } else {
                assert(!col_seq(size, x).contains(pos)) by {
                    if col_seq(size, x).contains(pos) {
                        let k = choose|k: int|
                            0 <= k < col_seq(size, x).len() && col_seq(size, x)[k] == pos;
                        assert(col_seq(size, x)[k].x == x);
                    }
                }
            }
        }
        assert forall|b: usize| b < size implies #[trigger] post.finished.blocks_s()[b as int]
            == count_found_in(post.nodes@, size, block_seq(size, shape, b)) by {
            lemma_block_seq(size, shape, b);
            lemma_count_found_update(pre.nodes@, post.nodes@, size, block_seq(size, shape, b), pos);
            lemma_count_found_bounds(pre.nodes@, size, block_seq(size, shape, b));
            let upd = pre.finished.blocks_s().update(
                crate::coord::block_of(pre.shape, pos),
                (pre.finished.blocks_s()[crate::coord::block_of(pre.shape, pos)] + 1) as usize,
            );
            assert(post.finished.blocks_s()[b as int] == upd[b as int]);
            if b == crate::coord::block_of(shape, pos) {
                assert(block_seq(size, shape, b).contains(pos)) by {
                    let k = choose|k: int|
                        0 <= k < size && #[trigger] block_seq(size, shape, b)[k] == pos;
                    assert(block_seq(size, shape, b)[k] == pos);
                }
            } else {
                assert(!block_seq(size, shape, b).contains(pos)) by {
                    if block_seq(size, shape, b).contains(pos) {
                        let k = choose|k: int|
                            0 <= k < block_seq(size, shape, b).len() && block_seq(
                                size,
                                shape,
                                b,
                            )[k] == pos;
                        assert(crate::coord::block_of(shape, block_seq(size, shape, b)[k]) == b);
                    }
                }
            }
        }
    }

    /// The counters stay exact when one determined cell at `pos` becomes
    /// open and the counter for each region of `pos` is stepped down.
    proof fn lemma_counts_dec(pre: State, post: State, pos: Coord)
        requires
            pre.counts_ok(),
            pre.dims_ok(),
            post.size == pre.size,
            post.shape == pre.shape,
            post.nodes@.len() == pre.nodes@.len(),
            pre.in_b(pos),
            pre.found_at(pos),
            !post.found_at(pos),
            forall|q: Coord|
                pre.in_b(q) && q != pos ==> (#[trigger] pre.found_at(q)) == post.found_at(q),
            post.finished.wf(),
            post.finished.sz() == pre.finished.sz(),
            post.finished.shape_s() == pre.finished.shape_s(),
            post.finished.total_s() == pre.finished.total_s(),
            post.finished.current_s() == pre.finished.current_s() - 1,
            post.finished.rows_s() == pre.finished.rows_s().update(
                pos.y as int,
                (pre.finished.rows_s()[pos.y as int] - 1) as usize,
            ),
            post.finished.columns_s() == pre.finished.columns_s().update(
                pos.x as int,
                (pre.finished.columns_s()[pos.x as int] - 1) as usize,
            ),
            post.finished.blocks_s() == pre.finished.blocks_s().update(
                crate::coord::block_of(pre.shape, pos),
                (pre.finished.blocks_s()[crate::coord::block_of(pre.shape, pos)] - 1) as usize,
            ),
        ensures
            post.counts_ok(),
    {
        let size = pre.n();
        let shape = pre.shape_s();
        lemma_flat_bound(size, pos);
        Self::lemma_all_distinct(size);
        lemma_all_seq(size);
        assert forall|q: Coord|
            in_grid(size, q) && q != pos implies pre.nodes@[flat_of(size, q)].found()
            == post.nodes@[#[trigger] flat_of(size, q)].found() by {
            assert(pre.found_at(q) == post.found_at(q));
        }
        crate::coord::lemma_block_bound(size, shape, pos);
        assert(size <= size * size && size + 1 <= usize::MAX) by (nonlinear_arith)
            requires
                size >= 1,
                size * size <= usize::MAX,
        ;
        assert(count_found_all(post.nodes@, size) == count_found_all(pre.nodes@, size) - 1) by {
            lemma_count_found_update(pre.nodes@, post.nodes@, size, all_seq(size), pos);
            assert(all_seq(size).contains(pos)) by {
                assert(all_seq(size)[flat_of(size, pos)] == pos);
            }
        }
        assert(pre.finished.current_s() >= 1) by {
            crate::regions::lemma_count_found_present(
                pre.nodes@,
                size,
                all_seq(size),
                flat_of(size, pos),
            );
        }
        assert forall|y: usize| y < size implies #[trigger] post.finished.rows_s()[y as int]
            == count_found_in(post.nodes@, size, row_seq(size, y)) by {
            lemma_row_seq(size, y);
            lemma_count_found_update(pre.nodes@, post.nodes@, size, row_seq(size, y), pos);
            lemma_count_found_bounds(pre.nodes@, size, row_seq(size, y));
            let upd = pre.finished.rows_s().update(
                pos.y as int,
                (pre.finished.rows_s()[pos.y as int] - 1) as usize,
            );
            assert(post.finished.rows_s()[y as int] == upd[y as int]);
            if y == pos.y {
                assert(row_seq(size, y).contains(pos)) by {
                    assert(row_seq(size, y)[pos.x as int] == pos);
                }
                crate::regions::lemma_count_found_present(
                    pre.nodes@,
                    size,
                    row_seq(size, y),
                    pos.x as int,
                );
            } else {
                assert(!row_seq(size, y).contains(pos)) by {
                    if row_seq(size, y).contains(pos) {
                        let k = choose|k: int|
                            0 <= k < row_seq(size, y).len() && row_seq(size, y)[k] == pos;
                        assert(row_seq(size, y)[k].y == y);
                    }
                }
            }
        }
        assert forall|x: usize| x < size implies #[trigger] post.finished.columns_s()[x as int]
            == count_found_in(post.nodes@, size, col_seq(size, x)) by {
            lemma_col_seq(size, x);
            lemma_count_found_update(pre.nodes@, post.nodes@, size, col_seq(size, x), pos);
            lemma_count_found_bounds(pre.nodes@, size, col_seq(size, x));
            let upd = pre.finished.columns_s().update(
                pos.x as int,
                (pre.finished.columns_s()[pos.x as int] - 1) as usize,
            );
            assert(post.finished.columns_s()[x as int] == upd[x as int]);
            if x == pos.x {
                assert(col_seq(size, x).contains(pos)) by {
                    assert(col_seq(size, x)[pos.y as int] == pos);
                }
                crate::regions::lemma_count_found_present(
                    pre.nodes@,
                    size,
                    col_seq(size, x),
                    pos.y as int,
                );
            } else {
                assert(!col_seq(size, x).contains(pos)) by {
                    if col_seq(size, x).contains(pos) {
                        let k = choose|k: int|
                            0 <= k < col_seq(size, x).len() && col_seq(size, x)[k] == pos;
                        assert(col_seq(size, x)[k].x == x);
                    }
                }
            }
        }
        assert forall|b: usize| b < size implies #[trigger] post.finished.blocks_s()[b as int]
            == count_found_in(post.nodes@, size, block_seq(size, shape, b)) by {
            lemma_block_seq(size, shape, b);
            lemma_count_found_update(pre.nodes@, post.nodes@, size, block_seq(size, shape, b), pos);
            lemma_count_found_bounds(pre.nodes@, size, block_seq(size, shape, b));
            let upd = pre.finished.blocks_s().update(
                crate::coord::block_of(pre.shape, pos),
                (pre.finished.blocks_s()[crate::coord::block_of(pre.shape, pos)] - 1) as usize,
            );
            assert(post.finished.blocks_s()[b as int] == upd[b as int]);
            if b == crate::coord::block_of(shape, pos) {
                let k = choose|k: int|
                    0 <= k < size && #[trigger] block_seq(size, shape, b)[k] == pos;
                assert(block_seq(size, shape, b).contains(pos)) by {
                    assert(block_seq(size, shape, b)[k] == pos);
                }
                crate::regions::lemma_count_found_present(
                    pre.nodes@,
                    size,
                    block_seq(size, shape, b),
                    k,
                );
            } else {
                assert(!block_seq(size, shape, b).contains(pos)) by {
                    if block_seq(size, shape, b).contains(pos) {
                        let k = choose|k: int|
                            0 <= k < block_seq(size, shape, b).len() && block_seq(
                                size,
                                shape,
                                b,
                            )[k] == pos;
                        assert(crate::coord::block_of(shape, block_seq(size, shape, b)[k]) == b);
                    }
                }
            }
        }
    }

    /// Cell well-formedness carries between states that agree on the cell,
    /// the grid side and (at least) the guess level.
    proof fn lemma_node_ok_congr(a: State, b: State, q: Coord)
        requires
            a.node_ok(q),
            b.node(q) == a.node(q),
            b.size == a.size,
            a.found_at(q) ==> a.level_at(q) <= b.guess_level,
        ensures
            b.node_ok(q),
    {
        if a.found_at(q) {
            assert(b.confl_at(q) == a.confl_at(q));
            assert forall|t: int|
                0 <= t < b.confl_at(q).len() implies b.in_b(#[trigger] b.confl_at(q)[t]) by {
                assert(b.confl_at(q)[t] == a.confl_at(q)[t]);
            }
            assert forall|t1: int, t2: int|
                0 <= t1 < b.confl_at(q).len() && 0 <= t2 < b.confl_at(q).len() && t1 != t2 implies
                #[trigger] b.confl_at(q)[t1] != #[trigger] b.confl_at(q)[t2] by {
                assert(b.confl_at(q)[t1] == a.confl_at(q)[t1]);
                assert(b.confl_at(q)[t2] == a.confl_at(q)[t2]);
            }
        }
    }

    /// Determines the cell at `pos` as `solve` at the current guess level:
    /// withdraws any earlier guess-stack entry and conflict records of the
    /// cell, steps the counters if the cell was open, and records the new
    /// conflicts. Candidate flags are left stale; callers re-propagate.
    #[verifier::spinoff_prover]
    fn assign(&mut self, pos: Coord, solve: usize)
        requires
            old(self).wf(),
            old(self).in_b(pos),
            solve < old(self).n(),
        ensures
            final(self).wf(),
            final(self).n() == old(self).n(),
            final(self).shape_s() == old(self).shape_s(),
            final(self).lvl() == old(self).lvl(),
            final(self).total_count() == old(self).total_count(),
            final(self).found_at(pos),
            final(self).val_at(pos) == solve,
            final(self).level_at(pos) == old(self).lvl(),
            final(self).gid_at(pos) == None::<usize>,
            final(self).det_count() == old(self).det_count() + (if old(self).found_at(pos) {
                0int
            } else {
                1int
            }),
            forall|q: Coord|
                old(self).in_b(q) && q != pos ==> (#[trigger] final(self).found_at(q)) == old(
                    self,
                ).found_at(q),
            forall|q: Coord|
                old(self).in_b(q) && q != pos && old(self).found_at(q) ==> (#[trigger] final(self).val_at(q)) == old(self).val_at(q) && final(self).level_at(q) == old(
                    self,
                ).level_at(q),
            forall|q: Coord|
                old(self).in_b(q) && q != pos && !old(self).found_at(q) ==> (#[trigger] final(self).node(q)) == old(self).node(q),
            !(old(self).found_at(pos) && old(self).gid_at(pos) is Some) ==> final(self).stack()
                == old(self).stack() && (forall|q: Coord|
                old(self).in_b(q) && q != pos && old(self).found_at(q) ==> #[trigger] final(self).gid_at(q) == old(self).gid_at(q)),
            old(self).found_at(pos) && old(self).gid_at(pos) is Some ==> {
                let j = old(self).gid_at(pos)->Some_0 as int;
                &&& final(self).stack() == old(self).stack().remove(j)
                &&& (forall|q: Coord|
                    old(self).in_b(q) && q != pos && old(self).found_at(q)
                        ==> #[trigger] final(self).gid_at(q) == gid_shift(old(self).gid_at(q), j))
            },
    {
        let size = self.size;
        self.unregister_guess(pos);
        let ghost s1 = *self;
        let i = flat_ix(size, pos);
        let was_found = self.nodes[i].is_found();
        proof {
            assert(s1.found_at(pos) == old(self).found_at(pos));
            assert(was_found == s1.found_at(pos));
        }
        if was_found {
            self.clear_conflicts(pos);
        } else {
            proof {
                lemma_all_seq(size);
                lemma_row_seq(size, pos.y);
                lemma_col_seq(size, pos.x);
                crate::coord::lemma_block_bound(size, self.shape, pos);
                lemma_block_seq(size, self.shape, (crate::coord::block_of(self.shape, pos)) as usize);
                assert(size <= size * size) by (nonlinear_arith)
                    requires
                        size >= 1,
                ;
                lemma_count_found_missing(self.nodes@, size, all_seq(size), flat_of(size, pos));
                assert(all_seq(size)[flat_of(size, pos)] == pos);
                lemma_count_found_missing(self.nodes@, size, row_seq(size, pos.y), pos.x as int);
                assert(row_seq(size, pos.y)[pos.x as int] == pos);
                lemma_count_found_missing(self.nodes@, size, col_seq(size, pos.x), pos.y as int);
                assert(col_seq(size, pos.x)[pos.y as int] == pos);
                let b = (crate::coord::block_of(self.shape, pos)) as usize;
                let k = choose|k: int| 0 <= k < size && #[trigger] block_seq(size, self.shape, b)[k] == pos;
                lemma_count_found_missing(self.nodes@, size, block_seq(size, self.shape, b), k);
                lemma_count_found_bounds(self.nodes@, size, row_seq(size, pos.y));
                lemma_count_found_bounds(self.nodes@, size, col_seq(size, pos.x));
                lemma_count_found_bounds(self.nodes@, size, block_seq(size, self.shape, b));
            }
            self.finished.inc(pos);
        }
        let ghost s2 = *self;
        let lvlv = self.guess_level;
        let mut tmp = Node::Possible(Vec::new());
        self.nodes.set_and_swap(i, &mut tmp);
        tmp.set(solve, lvlv);
        self.nodes.set_and_swap(i, &mut tmp);
        proof {
            lemma_flat_bound(size, pos);
            assert(self.node(pos) == self.nodes@[i as int]);
            assert forall|q: Coord| s2.in_b(q) && q != pos implies #[trigger] self.node(q)
                == s2.node(q) by {
                lemma_flat_bound(size, q);
                if flat_of(size, q) == flat_of(size, pos) {
                    lemma_flat_injective(size, q, pos);
                }
            }
            assert forall|q: Coord| self.in_b(q) implies #[trigger] self.node_ok(q) by {
                lemma_flat_bound(size, q);
                if q == pos {
                    assert(self.node_ok(q));
                } else {
                    if was_found {
                        assert(s2.node_ok(q));
                    } else {
                        assert(s1.node_ok(q));
                        assert(s2.node(q) == s1.node(q));
                        Self::lemma_node_ok_congr(s1, s2, q);
                    }
                    assert(self.node(q) == s2.node(q));
                    Self::lemma_node_ok_congr(s2, *self, q);
                }
            }
            if was_found {
                assert(self.counts_ok()) by {
                    assert forall|q: Coord| s2.in_b(q) implies (#[trigger] s2.found_at(q))
                        == self.found_at(q) by {
                        lemma_flat_bound(size, q);
                    }
                    Self::lemma_counts_congr(s2, *self);
                }
            } else {
                assert(self.counts_ok()) by {
                    assert forall|q: Coord| s1.in_b(q) && q != pos implies (#[trigger] s1.found_at(
                        q,
                    )) == self.found_at(q) by {
                        lemma_flat_bound(size, q);
                    }
                    Self::lemma_counts_inc(s1, *self, pos);
                }
            }
            assert(s1.gid_at(pos) is None || !s1.found_at(pos));
            assert(self.guesses@ == s1.guesses@);
            assert forall|q: Coord| s1.in_b(q) && q != pos implies #[trigger] self.node(q)
                == s2.node(q) && s2.found_at(q) == s1.found_at(q) && (s1.found_at(q)
                ==> s2.gid_at(q) == s1.gid_at(q)) by {
                lemma_flat_bound(size, q);
                if was_found {
                    assert(eq_but_confl(s1.node(q), s2.node(q)));
                    if !s1.found_at(q) {
                        assert(s2.node(q) == s1.node(q));
                    }
                } else {
                    assert(s2.node(q) == s1.node(q));
                }
            }
            assert(self.stack_ok()) by {
                assert forall|t: int| 0 <= t < self.guesses@.len() implies {
                    &&& self.in_b(#[trigger] self.guesses@[t])
                    &&& self.found_at(self.guesses@[t])
                    &&& self.gid_at(self.guesses@[t]) == Some(t as usize)
                } by {
                    let q = s1.guesses@[t];
                    assert(s1.found_at(q) && s1.gid_at(q) == Some(t as usize));
                    assert(q != pos);
                    lemma_flat_bound(size, q);
                }
                assert forall|p: Coord|
                    self.in_b(p) && self.found_at(p) && (#[trigger] self.gid_at(p)) is Some
                    implies self.gid_at(p)->Some_0 < self.guesses@.len() && self.guesses@[
                self.gid_at(p)->Some_0 as int] == p by {
                    lemma_flat_bound(size, p);
                    assert(p != pos);
                    assert(self.node(p) == s2.node(p));
                    assert(s2.found_at(p) == s1.found_at(p));
                    assert(s1.found_at(p));
                    assert(s2.gid_at(p) == s1.gid_at(p));
                    assert(s1.gid_at(p) == self.gid_at(p));
                }
            }
            assert forall|a: Coord, b: Coord|
                #![trigger self.has_confl(a, b)]
                self.in_b(a) && self.in_b(b) && a != pos && b != pos implies (self.has_confl(a, b)
                <==> self.conflicting(a, b)) by {
                lemma_flat_bound(size, a);
                lemma_flat_bound(size, b);
                assert(self.node(a) == s2.node(a) && self.node(b) == s2.node(b));
                assert(self.conflicting(a, b) == s2.conflicting(a, b));
                assert(self.has_confl(a, b) == s2.has_confl(a, b));
                assert(s1.has_confl(a, b) <==> s1.conflicting(a, b));
                if was_found {
                    assert(s2.has_confl(a, b) <==> s1.has_confl(a, b));
                    assert(s2.conflicting(a, b) == s1.conflicting(a, b)) by {
                        assert(eq_but_confl(s1.node(a), s2.node(a)) && eq_but_confl(
                            s1.node(b),
                            s2.node(b),
                        ));
                    }
                } else {
                    assert(s2.node(a) == s1.node(a) && s2.node(b) == s1.node(b));
                    assert(s2.has_confl(a, b) == s1.has_confl(a, b));
                    assert(s2.conflicting(a, b) == s1.conflicting(a, b));
                }
            }
            assert forall|a: Coord|
                self.in_b(a) && a != pos implies !(#[trigger] self.has_confl(a, pos)) by {
                lemma_flat_bound(size, a);
                assert(self.node(a) == s2.node(a));
                assert(self.has_confl(a, pos) == s2.has_confl(a, pos));
                if !was_found {
                    assert(s2.node(a) == s1.node(a));
                    assert(s2.has_confl(a, pos) == s1.has_confl(a, pos));
                    assert(s1.has_confl(a, pos) <==> s1.conflicting(a, pos));
                    assert(!s1.found_at(pos));
                }
            }
        }
        let ghost s3 = *self;
        self.set_conflicts(pos);
        proof {
            lemma_flat_bound(size, pos);
            assert(eq_but_confl(s3.node(pos), self.node(pos)));
            assert forall|q: Coord|
                old(self).in_b(q) && q != pos implies (#[trigger] self.found_at(q)) == old(
                self,
            ).found_at(q) && (old(self).found_at(q) ==> self.val_at(q) == old(self).val_at(q)
                && self.level_at(q) == old(self).level_at(q)) && (!old(self).found_at(q)
                ==> self.node(q) == old(self).node(q)) && (old(self).found_at(q)
                ==> self.gid_at(q) == s1.gid_at(q)) by {
                lemma_flat_bound(size, q);
                assert(eq_but_gid(old(self).node(q), s1.node(q)));
                assert(eq_but_confl(s1.node(q), s2.node(q)) || s2.node(q) == s1.node(q));
                assert(s3.node(q) == s2.node(q));
                assert(eq_but_confl(s3.node(q), self.node(q)));
            }
            assert forall|q: Coord|
                old(self).in_b(q) && q != pos implies (#[trigger] self.found_at(q)) == old(
                self,
            ).found_at(q) by {
            }
            assert forall|q: Coord|
                old(self).in_b(q) && q != pos && old(self).found_at(q) implies (
            #[trigger] self.val_at(q)) == old(self).val_at(q) && self.level_at(q) == old(
                self,
            ).level_at(q) by {
                assert(self.found_at(q) == old(self).found_at(q));
            }
            assert forall|q: Coord|
                old(self).in_b(q) && q != pos && !old(self).found_at(q) implies (
            #[trigger] self.node(q)) == old(self).node(q) by {
                assert(self.found_at(q) == old(self).found_at(q));
            }
        }
    }

    /// What `set` does on accepted input: the cell at `pos` is determined as
    /// `v` at the caller's guess level, every other cell keeps its state
    /// (with conflict records and candidate flags re-derived), the counters
    /// step up exactly when the cell was open, and any guess-stack entry of
    /// the cell is withdrawn.
    pub closed spec fn set_result(pre: State, post: State, pos: Coord, v: usize) -> bool {
        &&& post.inv()
        &&& post.n() == pre.n()
        &&& post.shape_s() == pre.shape_s()
        &&& post.lvl() == pre.lvl()
        &&& post.total_count() == pre.total_count()
        &&& post.found_at(pos)
        &&& post.val_at(pos) == v
        &&& post.level_at(pos) == pre.lvl()
        &&& post.gid_at(pos) is None
        &&& post.det_count() == pre.det_count() + (if pre.found_at(pos) {
            0int
        } else {
            1int
        })
        &&& (forall|q: Coord|
            pre.in_b(q) && q != pos ==> (#[trigger] post.found_at(q)) == pre.found_at(q) && (
            pre.found_at(q) ==> post.val_at(q) == pre.val_at(q) && post.level_at(q)
                == pre.level_at(q)))
        &&& (!(pre.found_at(pos) && pre.gid_at(pos) is Some) ==> post.stack() == pre.stack() && (
        forall|q: Coord|
            pre.in_b(q) && q != pos && pre.found_at(q) ==> #[trigger] post.gid_at(q)
                == pre.gid_at(q)))
        &&& (pre.found_at(pos) && pre.gid_at(pos) is Some ==> {
            let j = pre.gid_at(pos)->Some_0 as int;
            &&& post.stack() == pre.stack().remove(j)
            &&& (forall|q: Coord|
                pre.in_b(q) && q != pos && pre.found_at(q) ==> #[trigger] post.gid_at(q)
                    == gid_shift(pre.gid_at(q), j))
        })
    }

    /// Determines the cell at `pos` as the value `solve` at the current
    /// guess level, then re-derives every open cell's candidates. Rejects an
    /// out-of-grid position or a value the grid cannot hold before touching
    /// anything.
    #[verifier::spinoff_prover]
    #[verifier::rlimit(60)]
    pub fn set(&mut self, pos: Coord, solve: usize) -> (r: Result<(), CommandError>)
        requires
            old(self).inv(),
        ensures
            !old(self).in_b(pos) ==> r == Err::<(), CommandError>(CommandError::OutOfBounds)
                && *final(self) == *old(self),
            old(self).in_b(pos) && solve >= old(self).n() ==> r == Err::<(), CommandError>(
                CommandError::InvalidValue,
            ) && *final(self) == *old(self),
            old(self).in_b(pos) && solve < old(self).n() ==> r == Ok::<(), CommandError>(())
                && Self::set_result(*old(self), *final(self), pos, solve),
            final(self).inv(),
            final(self).n() == old(self).n(),
            final(self).shape_s() == old(self).shape_s(),
            final(self).lvl() == old(self).lvl(),
            final(self).total_count() == old(self).total_count(),
            final(self).det_count() >= old(self).det_count(),
            old(self).in_b(pos) && solve < old(self).n() ==> final(self).det_count() == old(
                self,
            ).det_count() + (if old(self).found_at(pos) {
                0int
            } else {
                1int
            }),
    {
        if pos.x >= self.size || pos.y >= self.size {
            return Err(CommandError::OutOfBounds);
        }
        if solve >= self.size {
            return Err(CommandError::InvalidValue);
        }
        self.assign(pos, solve);
        let ghost s1 = *self;
        self.reset_possible();
        proof {
            let size = old(self).n();
            lemma_flat_bound(size, pos);
            assert(self.node(pos) == s1.node(pos));
            assert forall|q: Coord|
                old(self).in_b(q) && q != pos implies (#[trigger] self.found_at(q)) == old(
                self,
            ).found_at(q) by {
                lemma_flat_bound(size, q);
            }
            assert forall|q: Coord|
                old(self).in_b(q) && q != pos && old(self).found_at(q) implies (
            #[trigger] self.val_at(q)) == old(self).val_at(q) && self.level_at(q) == old(
                self,
            ).level_at(q) && self.gid_at(q) == s1.gid_at(q) by {
                lemma_flat_bound(size, q);
                assert(self.found_at(q) == old(self).found_at(q));
                assert(s1.found_at(q));
                assert(self.node(q) == s1.node(q));
                assert(s1.val_at(q) == old(self).val_at(q));
                assert(s1.level_at(q) == old(self).level_at(q));
                assert(self.val_at(q) == s1.val_at(q));
                assert(self.level_at(q) == s1.level_at(q));
                assert(self.gid_at(q) == s1.gid_at(q));
            }
            assert(Self::set_result(*old(self), *self, pos, solve)) by {
                assert(self.found_at(pos) && self.val_at(pos) == solve && self.level_at(pos)
                    == old(self).lvl() && self.gid_at(pos) is None);
                assert(self.stack() == s1.stack());
                if old(self).found_at(pos) && old(self).gid_at(pos) is Some {
                    let j = old(self).gid_at(pos)->Some_0 as int;
                    assert(s1.stack() == old(self).stack().remove(j));
                    assert forall|q: Coord|
                        old(self).in_b(q) && q != pos && old(self).found_at(q) implies
                        #[trigger] self.gid_at(q) == gid_shift(old(self).gid_at(q), j) by {
                        assert(s1.gid_at(q) == gid_shift(old(self).gid_at(q), j));
                        assert(self.gid_at(q) == s1.gid_at(q));
                    }
                } else {
                    assert(s1.stack() == old(self).stack());
                    assert forall|q: Coord|
                        old(self).in_b(q) && q != pos && old(self).found_at(q) implies
                        #[trigger] self.gid_at(q) == old(self).gid_at(q) by {
                        assert(s1.gid_at(q) == old(self).gid_at(q));
                        assert(self.gid_at(q) == s1.gid_at(q));
                    }
                }
            }
        }
        Ok(())
    }

    /// Returns the determined cell at `pos` to open (withdrawing its
    /// conflict records, its guess-stack entry and its count) without the
    /// closing propagation pass. Callers re-propagate.
    #[verifier::spinoff_prover]
    fn clear_cell(&mut self, pos: Coord)
        requires
            old(self).wf(),
            old(self).in_b(pos),
            old(self).found_at(pos),
        ensures
            final(self).wf(),
            final(self).n() == old(self).n(),
            final(self).shape_s() == old(self).shape_s(),
            final(self).lvl() == old(self).lvl(),
            final(self).total_count() == old(self).total_count(),
            !final(self).found_at(pos),
            final(self).poss_at(pos).len() == old(self).n(),
            forall|v: int| 0 <= v < old(self).n() ==> final(self).poss_at(pos)[v],
            final(self).det_count() == old(self).det_count() - 1,
            forall|q: Coord|
                old(self).in_b(q) && q != pos ==> (#[trigger] final(self).found_at(q)) == old(
                    self,
                ).found_at(q) && (old(self).found_at(q) ==> final(self).val_at(q) == old(
                    self,
                ).val_at(q) && final(self).level_at(q) == old(self).level_at(q)) && (!old(
                    self,
                ).found_at(q) ==> final(self).node(q) == old(self).node(q)),
            forall|p: Coord|
                final(self).stack().contains(p) <==> (old(self).stack().contains(p) && p != pos),
            final(self).stack().len() <= old(self).stack().len(),
    {
        let size = self.size;
        self.unregister_guess(pos);
        let ghost s1 = *self;
        self.clear_conflicts(pos);
        let ghost s2 = *self;
        let i = flat_ix(size, pos);
        let mut tmp = Node::Possible(Vec::new());
        self.nodes.set_and_swap(i, &mut tmp);
        tmp.reset(size);
        self.nodes.set_and_swap(i, &mut tmp);
        proof {
            lemma_flat_bound(size, pos);
            assert(self.node(pos) == self.nodes@[i as int]);
            assert forall|q: Coord| s2.in_b(q) && q != pos implies #[trigger] self.node(q)
                == s2.node(q) by {
                lemma_flat_bound(size, q);
                if flat_of(size, q) == flat_of(size, pos) {
                    lemma_flat_injective(size, q, pos);
                }
            }
            assert forall|q: Coord| self.in_b(q) implies #[trigger] self.node_ok(q) by {
                lemma_flat_bound(size, q);
                if q == pos {
                    assert(self.node_ok(q));
                } else {
                    assert(s2.node_ok(q));
                    assert(self.node(q) == s2.node(q));
                    Self::lemma_node_ok_congr(s2, *self, q);
                }
            }
            assert(s1.gid_at(pos) is None || !s1.found_at(pos));
            assert(self.guesses@ == s1.guesses@);
            assert(self.stack_ok()) by {
                assert forall|t: int| 0 <= t < self.guesses@.len() implies {
                    &&& self.in_b(#[trigger] self.guesses@[t])
                    &&& self.found_at(self.guesses@[t])
                    &&& self.gid_at(self.guesses@[t]) == Some(t as usize)
                } by {
                    let q = s1.guesses@[t];
                    assert(s1.found_at(q) && s1.gid_at(q) == Some(t as usize));
                    assert(q != pos);
                    lemma_flat_bound(size, q);
                    assert(eq_but_confl(s1.node(q), s2.node(q)));
                    assert(self.node(q) == s2.node(q));
                }
                assert forall|p: Coord|
                    self.in_b(p) && self.found_at(p) && (#[trigger] self.gid_at(p)) is Some
                    implies self.gid_at(p)->Some_0 < self.guesses@.len() && self.guesses@[
                self.gid_at(p)->Some_0 as int] == p by {
                    lemma_flat_bound(size, p);
                    assert(p != pos);
                    assert(self.node(p) == s2.node(p));
                    assert(eq_but_confl(s1.node(p), s2.node(p)));
                    assert(s1.found_at(p) && s1.gid_at(p) == self.gid_at(p));
                }
            }
            assert forall|a: Coord, b: Coord|
                #![trigger self.has_confl(a, b)]
                #![trigger self.conflicting(a, b)]
                self.in_b(a) && self.in_b(b) implies (self.has_confl(a, b) <==> self.conflicting(
                a,
                b,
            )) by {
                lemma_flat_bound(size, a);
                lemma_flat_bound(size, b);
                if a == pos {
                    assert(!self.found_at(a));
                } else {
                    assert(self.node(a) == s2.node(a));
                    if b == pos {
                        assert(self.has_confl(a, pos) == s2.has_confl(a, pos));
                        assert(!s2.has_confl(a, pos));
                        assert(!self.found_at(pos));
                    } else {
                        assert(self.node(b) == s2.node(b));
                        assert(s2.has_confl(a, b) <==> s1.has_confl(a, b));
                        assert(s1.has_confl(a, b) <==> s1.conflicting(a, b));
                        assert(s2.node(a) == self.node(a) && s2.node(b) == self.node(b));
                        assert(self.conflicting(a, b) == s1.conflicting(a, b)) by {
                            assert(eq_but_confl(s1.node(a), s2.node(a)) && eq_but_confl(
                                s1.node(b),
                                s2.node(b),
                            ));
                        }
                    }
                }
            }
        }
        proof {
            lemma_all_seq(size);
            lemma_row_seq(size, pos.y);
            lemma_col_seq(size, pos.x);
            crate::coord::lemma_block_bound(size, self.shape, pos);
            let b = (crate::coord::block_of(self.shape, pos)) as usize;
            lemma_block_seq(size, self.shape, b);
            assert(all_seq(size)[flat_of(size, pos)] == pos);
            crate::regions::lemma_count_found_present(
                s2.nodes@,
                size,
                all_seq(size),
                flat_of(size, pos),
            );
            assert(row_seq(size, pos.y)[pos.x as int] == pos);
            crate::regions::lemma_count_found_present(
                s2.nodes@,
                size,
                row_seq(size, pos.y),
                pos.x as int,
            );
            assert(col_seq(size, pos.x)[pos.y as int] == pos);
            crate::regions::lemma_count_found_present(
                s2.nodes@,
                size,
                col_seq(size, pos.x),
                pos.y as int,
            );
            let kb = choose|kb: int|
                0 <= kb < size && #[trigger] block_seq(size, self.shape, b)[kb] == pos;
            crate::regions::lemma_count_found_present(
                s2.nodes@,
                size,
                block_seq(size, self.shape, b),
                kb,
            );
        }
        let ghost s3 = *self;
        self.finished.dec(pos);
        proof {
            assert(self.counts_ok()) by {
                assert forall|q: Coord| s2.in_b(q) && q != pos implies (#[trigger] s2.found_at(
                    q,
                )) == self.found_at(q) by {
                    lemma_flat_bound(size, q);
                }
                Self::lemma_counts_dec(s2, *self, pos);
            }
            assert forall|q: Coord| self.in_b(q) implies #[trigger] self.node_ok(q) by {
                assert(s3.node_ok(q));
                assert(self.node(q) == s3.node(q));
                Self::lemma_node_ok_congr(s3, *self, q);
            }
            assert(self.stack_ok()) by {
                assert forall|q: Coord|
                    s3.in_b(q) implies (#[trigger] s3.found_at(q)) == self.found_at(q) && (
                s3.found_at(q) ==> s3.gid_at(q) == self.gid_at(q)) by {
                    assert(self.node(q) == s3.node(q));
                }
                Self::lemma_stack_ok_congr(s3, *self);
            }
            assert forall|a: Coord, b: Coord|
                #![trigger self.has_confl(a, b)]
                #![trigger self.conflicting(a, b)]
                self.in_b(a) && self.in_b(b) implies (self.has_confl(a, b) <==> self.conflicting(
                a,
                b,
            )) by {
                assert(s3.has_confl(a, b) <==> s3.conflicting(a, b));
                assert(self.node(a) == s3.node(a) && self.node(b) == s3.node(b));
                assert(self.has_confl(a, b) == s3.has_confl(a, b));
                assert(self.conflicting(a, b) == s3.conflicting(a, b));
            }
            assert forall|p: Coord|
                self.stack().contains(p) <==> (old(self).stack().contains(p) && p != pos) by {
                if old(self).found_at(pos) && old(self).gid_at(pos) is Some {
                    let j = old(self).gid_at(pos)->Some_0 as int;
                    assert(old(self).stack()[j] == pos);
                    crate::regions::lemma_remove_nodup(old(self).stack(), j);
                } else {
                    assert(self.stack() == old(self).stack());
                    if p == pos && old(self).stack().contains(pos) {
                        let t = choose|t: int|
                            0 <= t < old(self).stack().len() && old(self).stack()[t] == pos;
                        assert(old(self).gid_at(pos) == Some(t as usize));
                    }
                }
            }
            if old(self).found_at(pos) && old(self).gid_at(pos) is Some {
                let j = old(self).gid_at(pos)->Some_0 as int;
                assert(self.stack() == old(self).stack().remove(j));
                old(self).stack().remove_ensures(j);
            }
            assert forall|q: Coord|
                old(self).in_b(q) && q != pos implies (#[trigger] self.found_at(q)) == old(
                self,
            ).found_at(q) && (old(self).found_at(q) ==> self.val_at(q) == old(self).val_at(q)
                && self.level_at(q) == old(self).level_at(q)) && (!old(self).found_at(q)
                ==> self.node(q) == old(self).node(q)) by {
                lemma_flat_bound(size, q);
                assert(eq_but_gid(old(self).node(q), s1.node(q)));
                assert(eq_but_confl(s1.node(q), s2.node(q)));
                assert(self.node(q) == s2.node(q));
                if !old(self).found_at(q) {
                    assert(s1.node(q) == old(self).node(q));
                    assert(s2.node(q) == s1.node(q));
                }
            }
        }
    }

    /// What `clear` does on a determined cell: the cell returns to open,
    /// every other cell keeps its determined state, the counters step down
    /// once, any guess-stack entry of the cell is withdrawn, and candidate
    /// flags are re-derived everywhere.
    pub closed spec fn clear_result(pre: State, post: State, pos: Coord) -> bool {
        &&& post.inv()
        &&& post.n() == pre.n()
        &&& post.shape_s() == pre.shape_s()
        &&& post.lvl() == pre.lvl()
        &&& post.total_count() == pre.total_count()
        &&& !post.found_at(pos)
        &&& post.det_count() == pre.det_count() - 1
        &&& (forall|q: Coord|
            pre.in_b(q) && q != pos ==> (#[trigger] post.found_at(q)) == pre.found_at(q) && (
            pre.found_at(q) ==> post.val_at(q) == pre.val_at(q) && post.level_at(q)
                == pre.level_at(q)))
        &&& (forall|p: Coord|
            post.stack().contains(p) <==> (pre.stack().contains(p) && p != pos))
        &&& post.stack().len() <= pre.stack().len()
    }

    /// Returns the cell at `pos` to open and re-derives every open cell's
    /// candidates; a cell that is already open is left untouched. Rejects an
    /// out-of-grid position before touching anything.
    #[verifier::spinoff_prover]
    pub fn clear(&mut self, pos: Coord) -> (r: Result<(), CommandError>)
        requires
            old(self).inv(),
        ensures
            !old(self).in_b(pos) ==> r == Err::<(), CommandError>(CommandError::OutOfBounds)
                && *final(self) == *old(self),
            old(self).in_b(pos) && !old(self).found_at(pos) ==> r == Ok::<(), CommandError>(())
                && *final(self) == *old(self),
            old(self).in_b(pos) && old(self).found_at(pos) ==> r == Ok::<(), CommandError>(())
                && Self::clear_result(*old(self), *final(self), pos),
            final(self).inv(),
            final(self).n() == old(self).n(),
            final(self).shape_s() == old(self).shape_s(),
            final(self).lvl() == old(self).lvl(),
            final(self).total_count() == old(self).total_count(),
            final(self).det_count() <= old(self).det_count(),
            old(self).in_b(pos) && old(self).found_at(pos) ==> final(self).det_count() == old(
                self,
            ).det_count() - 1,
    {
        if pos.x >= self.size || pos.y >= self.size {
            return Err(CommandError::OutOfBounds);
        }
        let i = flat_ix(self.size, pos);
        if !self.nodes[i].is_found() {
            proof {
                lemma_flat_bound(self.size, pos);
            }
            return Ok(());
        }
        self.clear_cell(pos);
        let ghost s1 = *self;
        self.reset_possible();
        proof {
            let size = old(self).n();
            lemma_flat_bound(size, pos);
            assert(!self.found_at(pos));
            assert forall|q: Coord|
                old(self).in_b(q) && q != pos implies (#[trigger] self.found_at(q)) == old(
                self,
            ).found_at(q) && (old(self).found_at(q) ==> self.val_at(q) == old(self).val_at(q)
                && self.level_at(q) == old(self).level_at(q)) by {
                lemma_flat_bound(size, q);
                if s1.found_at(q) {
                    assert(self.node(q) == s1.node(q));
                }
            }
        }
        Ok(())
    }

    /// Raises the guess level by one; no cell is touched.
    pub fn inc_guess(&mut self)
        requires
            old(self).inv(),
            old(self).lvl() < usize::MAX,
        ensures
            final(self).inv(),
            final(self).lvl() == old(self).lvl() + 1,
            final(self).n() == old(self).n(),
            final(self).shape_s() == old(self).shape_s(),
            final(self).stack() == old(self).stack(),
            final(self).det_count() == old(self).det_count(),
            final(self).total_count() == old(self).total_count(),
            final(self).nodes_s() == old(self).nodes_s(),
            forall|q: Coord|
                old(self).in_b(q) ==> #[trigger] final(self).node(q) == old(self).node(q),
    {
        self.guess_level = self.guess_level + 1;
        proof {
            let size = self.size;
            assert forall|q: Coord| self.in_b(q) implies #[trigger] self.node_ok(q) by {
                assert(old(self).node_ok(q));
                assert(self.node(q) == old(self).node(q));
                Self::lemma_node_ok_congr(*old(self), *self, q);
            }
            assert(self.counts_ok()) by {
                assert forall|q: Coord|
                    old(self).in_b(q) implies (#[trigger] old(self).found_at(q)) == self.found_at(
                    q,
                ) by {
                    assert(self.node(q) == old(self).node(q));
                }
                Self::lemma_counts_congr(*old(self), *self);
            }
            assert(self.stack_ok()) by {
                assert forall|q: Coord|
                    old(self).in_b(q) implies (#[trigger] old(self).found_at(q)) == self.found_at(
                    q,
                ) && (old(self).found_at(q) ==> old(self).gid_at(q) == self.gid_at(q)) by {
                    assert(self.node(q) == old(self).node(q));
                }
                Self::lemma_stack_ok_congr(*old(self), *self);
            }
            assert forall|a: Coord, b: Coord|
                #![trigger self.has_confl(a, b)]
                #![trigger self.conflicting(a, b)]
                self.in_b(a) && self.in_b(b) implies (self.has_confl(a, b) <==> self.conflicting(
                a,
                b,
            )) by {
                assert(old(self).has_confl(a, b) <==> old(self).conflicting(a, b));
                assert(self.node(a) == old(self).node(a) && self.node(b) == old(self).node(b));
                assert(self.has_confl(a, b) == old(self).has_confl(a, b));
                assert(self.conflicting(a, b) == old(self).conflicting(a, b));
            }
            assert(self.propagated()) by {
                assert forall|q: Coord|
                    old(self).in_b(q) implies (#[trigger] old(self).found_at(q)) == self.found_at(
                    q,
                ) && (old(self).found_at(q) ==> old(self).val_at(q) == self.val_at(q)) && (!old(
                    self,
                ).found_at(q) ==> old(self).poss_at(q) == self.poss_at(q)) by {
                    assert(self.node(q) == old(self).node(q));
                }
                Self::lemma_propagated_congr(*old(self), *self);
            }
        }
    }

    /// Lowers the guess level by one and clears every cell that was
    /// determined above the new level, then re-derives every open cell's
    /// candidates. At level zero nothing happens.
    #[verifier::spinoff_prover]
    pub fn dec_guess(&mut self)
        requires
            old(self).inv(),
        ensures
            final(self).inv(),
            old(self).lvl() == 0 ==> *final(self) == *old(self),
            old(self).lvl() >= 1 ==> {
                &&& final(self).lvl() == old(self).lvl() - 1
                &&& final(self).n() == old(self).n()
                &&& final(self).shape_s() == old(self).shape_s()
                &&& final(self).total_count() == old(self).total_count()
                &&& (forall|q: Coord|
                    old(self).in_b(q) && old(self).found_at(q) && old(self).level_at(q) < old(
                        self,
                    ).lvl() ==> (#[trigger] final(self).found_at(q)) && final(self).val_at(q)
                        == old(self).val_at(q) && final(self).level_at(q) == old(self).level_at(q))
                &&& (forall|q: Coord|
                    old(self).in_b(q) && #[trigger] final(self).found_at(q) ==> old(
                        self,
                    ).found_at(q) && old(self).level_at(q) < old(self).lvl() && final(self).val_at(
                        q,
                    ) == old(self).val_at(q) && final(self).level_at(q) == old(self).level_at(q))
                &&& (forall|p: Coord|
                    final(self).stack().contains(p) <==> (old(self).stack().contains(p) && final(self).found_at(p)))
                &&& final(self).stack().len() <= old(self).stack().len()
                &&& final(self).det_count() <= old(self).det_count()
            },
    {
        if self.guess_level == 0 {
            return ;
        }
        let size = self.size;
        let total = size * size;
        let new_level = self.guess_level - 1;
        let mut k: usize = 0;
        while k < total
            invariant
                k <= total,
                self.wf(),
                self.size == old(self).size,
                self.shape == old(self).shape,
                self.guess_level == old(self).guess_level,
                new_level == old(self).lvl() - 1,
                self.total_count() == old(self).total_count(),
                self.det_count() <= old(self).det_count(),
                forall|q: Coord|
                    old(self).in_b(q) && flat_of(size, q) < k && #[trigger] self.found_at(q)
                        ==> self.level_at(q) <= new_level,
                forall|q: Coord|
                    old(self).in_b(q) ==> ((#[trigger] self.found_at(q)) ==> old(self).found_at(q)
                        && self.val_at(q) == old(self).val_at(q) && self.level_at(q) == old(
                        self,
                    ).level_at(q)),
                forall|q: Coord|
                    old(self).in_b(q) && old(self).found_at(q) && old(self).level_at(q)
                        <= new_level ==> #[trigger] self.found_at(q),
                forall|p: Coord|
                    self.stack().contains(p) <==> (old(self).stack().contains(p)
                        && self.found_at(p)),
                self.stack().len() <= old(self).stack().len(),
            decreases total - k,
        {
            let p = pos_at(size, k);
            let clear_it: bool = match &self.nodes[flat_ix(size, p)] {
                Node::Found(d) => d.guess_level > new_level,
                Node::Possible(_) => false,
            };
            let ghost sa = *self;
            if clear_it {
                self.clear_cell(p);
                proof {
                    assert forall|q: Coord|
                        old(self).in_b(q) && q != p implies #[trigger] self.found_at(q)
                        == sa.found_at(q) && (sa.found_at(q) ==> self.val_at(q) == sa.val_at(q)
                        && self.level_at(q) == sa.level_at(q)) by {
                        lemma_flat_bound(size, q);
                    }
                    assert forall|pp: Coord|
                        self.stack().contains(pp) <==> (old(self).stack().contains(pp)
                            && self.found_at(pp)) by {
                        if pp == p {
                            assert(!self.stack().contains(p));
                            assert(!self.found_at(p));
                        }
                    }
                }
            }
            proof {
                assert(clear_it == (sa.found_at(p) && sa.level_at(p) > new_level));
                assert forall|q: Coord|
                    old(self).in_b(q) && flat_of(size, q) < k + 1 && #[trigger] self.found_at(q)
                    implies self.level_at(q) <= new_level by {
                    if flat_of(size, q) == k {
                        lemma_flat_injective(size, q, p);
                        assert(q == p);
                        if clear_it {
                            assert(!self.found_at(p));
                        } else {
                            assert(self.node(p) == sa.node(p));
                        }
                    }
                }
                assert forall|q: Coord|
                    old(self).in_b(q) && old(self).found_at(q) && old(self).level_at(q)
                        <= new_level implies #[trigger] self.found_at(q) by {
                    if clear_it {
                        if q == p {
                            assert(sa.found_at(p) && sa.level_at(p) > new_level);
                            assert(sa.level_at(p) == old(self).level_at(p));
                        } else {
                            assert(self.found_at(q) == sa.found_at(q));
                        }
                    }
                }
            }
            k += 1;
        }
        let ghost sx = *self;
        self.guess_level = new_level;
        let ghost s1 = *self;
        proof {
            let me = *self;
            assert forall|q: Coord| me.in_b(q) implies #[trigger] me.node_ok(q) by {
                lemma_flat_bound(size, q);
                assert(me.node(q) == sx.node(q));
                assert(sx.node_ok(q));
                assert(me.found_at(q) ==> me.level_at(q) <= new_level);
                Self::lemma_node_ok_congr(sx, me, q);
            }
            assert(me.counts_ok()) by {
                assert forall|q: Coord|
                    sx.in_b(q) implies (#[trigger] sx.found_at(q)) == me.found_at(q) by {
                    assert(me.node(q) == sx.node(q));
                }
                Self::lemma_counts_congr(sx, me);
            }
            assert(me.stack_ok()) by {
                assert forall|q: Coord|
                    sx.in_b(q) implies (#[trigger] sx.found_at(q)) == me.found_at(q) && (
                sx.found_at(q) ==> sx.gid_at(q) == me.gid_at(q)) by {
                    assert(me.node(q) == sx.node(q));
                }
                Self::lemma_stack_ok_congr(sx, me);
            }
            assert forall|a: Coord, b: Coord|
                #![trigger me.has_confl(a, b)]
                #![trigger me.conflicting(a, b)]
                me.in_b(a) && me.in_b(b) implies (me.has_confl(a, b) <==> me.conflicting(a, b)) by {
                assert(sx.has_confl(a, b) <==> sx.conflicting(a, b));
                assert(me.node(a) == sx.node(a) && me.node(b) == sx.node(b));
                assert(me.has_confl(a, b) == sx.has_confl(a, b));
                assert(me.conflicting(a, b) == sx.conflicting(a, b));
            }
        }
        self.reset_possible();
        proof {
            assert forall|q: Coord|
                old(self).in_b(q) implies ((#[trigger] self.found_at(q)) == s1.found_at(q)) && (
            s1.found_at(q) ==> self.node(q) == s1.node(q)) by {
                lemma_flat_bound(size, q);
            }
            assert forall|q: Coord|
                old(self).in_b(q) implies ((#[trigger] self.found_at(q)) == sx.found_at(q)) && (
            sx.found_at(q) ==> self.val_at(q) == sx.val_at(q) && self.level_at(q) == sx.level_at(
                q,
            ) && sx.level_at(q) <= new_level) by {
                lemma_flat_bound(size, q);
                assert(s1.node(q) == sx.node(q));
                if s1.found_at(q) {
                    assert(self.node(q) == s1.node(q));
                }
            }
            assert(self.stack() == s1.stack());
            assert forall|p: Coord|
                self.stack().contains(p) <==> (old(self).stack().contains(p) && self.found_at(
                    p,
                )) by {
                assert(sx.stack().contains(p) <==> (old(self).stack().contains(p)
                    && sx.found_at(p)));
                assert(s1.stack() == sx.stack());
                if s1.stack().contains(p) {
                    let t = choose|t: int| 0 <= t < s1.stack().len() && s1.stack()[t] == p;
                    assert(s1.in_b(s1.stack()[t]) && s1.found_at(s1.stack()[t]));
                    assert(s1.in_b(p));
                    assert(self.found_at(p) == s1.found_at(p));
                    assert(s1.found_at(p) == sx.found_at(p)) by {
                        assert(s1.node(p) == sx.node(p));
                    }
                }
                if old(self).stack().contains(p) && self.found_at(p) {
                    let t = choose|t: int|
                        0 <= t < old(self).stack().len() && old(self).stack()[t] == p;
                    assert(old(self).in_b(old(self).stack()[t]));
                    assert(old(self).in_b(p));
                    assert(self.found_at(p) == s1.found_at(p));
                    assert(s1.found_at(p) == sx.found_at(p)) by {
                        assert(s1.node(p) == sx.node(p));
                    }
                }
            }
        }
    }

    /// Determines every open cell that has exactly one candidate left (a
    /// forced single) as that candidate, at the current guess level, in one
    /// sweep over the grid; re-derives candidates if anything was assigned.
    /// Returns whether any cell was assigned.
    #[verifier::spinoff_prover]
    pub fn solve_basic(&mut self) -> (r: bool)
        requires
            old(self).inv(),
        ensures
            final(self).inv(),
            final(self).n() == old(self).n(),
            final(self).shape_s() == old(self).shape_s(),
            final(self).lvl() == old(self).lvl(),
            final(self).stack() == old(self).stack(),
            final(self).total_count() == old(self).total_count(),
            final(self).det_count() >= old(self).det_count(),
            r == (exists|p: Coord|
                old(self).in_b(p) && !(#[trigger] old(self).found_at(p)) && count_true(
                    old(self).poss_at(p),
                ) == 1),
            r ==> final(self).det_count() >= old(self).det_count() + 1,
            !r ==> *final(self) == *old(self),
            forall|q: Coord|
                old(self).in_b(q) && old(self).found_at(q) ==> (#[trigger] final(self).found_at(
                    q,
                )) && final(self).val_at(q) == old(self).val_at(q) && final(self).level_at(q)
                    == old(self).level_at(q) && final(self).gid_at(q) == old(self).gid_at(q),
            forall|q: Coord|
                old(self).in_b(q) && !old(self).found_at(q) && count_true(old(self).poss_at(q))
                    == 1 ==> (#[trigger] final(self).found_at(q)) && old(self).poss_at(q)[final(self).val_at(q) as int] && final(self).level_at(q) == old(self).lvl() && final(self).gid_at(q) is None,
            forall|q: Coord|
                old(self).in_b(q) && !old(self).found_at(q) && count_true(old(self).poss_at(q))
                    != 1 ==> !(#[trigger] final(self).found_at(q)),
    {
        let size = self.size;
        let total = size * size;
        let mut change = false;
        let mut k: usize = 0;
        while k < total
            invariant
                k <= total,
                self.wf(),
                self.size == old(self).size,
                self.shape == old(self).shape,
                self.guess_level == old(self).guess_level,
                self.stack() == old(self).stack(),
                self.total_count() == old(self).total_count(),
                self.det_count() >= old(self).det_count(),
                change ==> self.det_count() >= old(self).det_count() + 1,
                !change ==> *self == *old(self),
                change == (exists|p: Coord|
                    old(self).in_b(p) && flat_of(size, p) < k && !(#[trigger] old(self).found_at(
                        p,
                    )) && count_true(old(self).poss_at(p)) == 1),
                forall|q: Coord|
                    old(self).in_b(q) && old(self).found_at(q) ==> (#[trigger] self.found_at(q))
                        && self.val_at(q) == old(self).val_at(q) && self.level_at(q) == old(
                        self,
                    ).level_at(q) && self.gid_at(q) == old(self).gid_at(q),
                forall|q: Coord|
                    old(self).in_b(q) && !old(self).found_at(q) && flat_of(size, q) < k
                        && count_true(old(self).poss_at(q)) == 1 ==> (#[trigger] self.found_at(q))
                        && old(self).poss_at(q)[self.val_at(q) as int] && self.level_at(q) == old(
                        self,
                    ).lvl() && self.gid_at(q) is None,
                forall|q: Coord|
                    old(self).in_b(q) && !old(self).found_at(q) && !(flat_of(size, q) < k
                        && count_true(old(self).poss_at(q)) == 1) ==> #[trigger] self.node(q)
                        == old(self).node(q),
            decreases total - k,
        {
            let p = pos_at(size, k);
            let is_open = !self.nodes[k].is_found();
            let u: Option<usize> = if is_open {
                match &self.nodes[k] {
                    Node::Possible(list) => crate::node::unique_true(list),
                    Node::Found(_) => None,
                }
            } else {
                None
            };
            proof {
                lemma_flat_bound(size, p);
                assert(self.node(p) == self.nodes@[k as int]);
                assert(is_open == !self.found_at(p));
                if !old(self).found_at(p) {
                    assert(self.node(p) == old(self).node(p));
                }
            }
            let ghost sa = *self;
            proof {
                assert(forall|q: Coord|
                    old(self).in_b(q) && !old(self).found_at(q) && flat_of(size, q) < k
                        && count_true(old(self).poss_at(q)) == 1 ==> (#[trigger] sa.found_at(q))
                        && old(self).poss_at(q)[sa.val_at(q) as int] && sa.level_at(q) == old(
                        self,
                    ).lvl() && sa.gid_at(q) is None);
                assert(forall|q: Coord|
                    old(self).in_b(q) && old(self).found_at(q) ==> (#[trigger] sa.found_at(q))
                        && sa.val_at(q) == old(self).val_at(q) && sa.level_at(q) == old(
                        self,
                    ).level_at(q) && sa.gid_at(q) == old(self).gid_at(q));
                assert(forall|q: Coord|
                    old(self).in_b(q) && !old(self).found_at(q) && !(flat_of(size, q) < k
                        && count_true(old(self).poss_at(q)) == 1) ==> #[trigger] sa.node(q) == old(
                        self,
                    ).node(q));
            }
            if let Some(v) = u {
                proof {
                    assert(!self.found_at(p));
                    assert(!old(self).found_at(p));
                    assert(self.node(p) == old(self).node(p));
                    assert(count_true(old(self).poss_at(p)) == 1);
                    assert(old(self).node_ok(p));
                    assert(v < size);
                }
                self.assign(p, v);
                change = true;
                proof {
                    assert forall|q: Coord|
                        sa.in_b(q) && q != p implies ((#[trigger] self.found_at(q)) == sa.found_at(
                        q,
                    )) && (sa.found_at(q) ==> self.val_at(q) == sa.val_at(q) && self.level_at(q)
                        == sa.level_at(q) && self.gid_at(q) == sa.gid_at(q)) && (!sa.found_at(q)
                        ==> self.node(q) == sa.node(q)) by {
                        lemma_flat_bound(size, q);
                    }
                    assert(self.found_at(p) && self.val_at(p) == v && self.level_at(p) == old(
                        self,
                    ).lvl() && self.gid_at(p) is None);
                    assert(old(self).poss_at(p)[v as int]);
                    assert forall|q: Coord|
                        old(self).in_b(q) && !old(self).found_at(q) && flat_of(size, q) < k + 1
                            && count_true(old(self).poss_at(q)) == 1 implies (
                    #[trigger] self.found_at(q)) && old(self).poss_at(q)[self.val_at(q) as int]
                        && self.level_at(q) == old(self).lvl() && self.gid_at(q) is None by {
                        lemma_flat_bound(size, q);
                        if q != p {
                            assert(flat_of(size, q) < k) by {
                                if flat_of(size, q) == k {
                                    lemma_flat_injective(size, q, p);
                                }
                            }
                            assert(sa.found_at(q));
                            assert(old(self).poss_at(q)[sa.val_at(q) as int]);
                            assert(sa.level_at(q) == old(self).lvl());
                            assert(sa.gid_at(q) is None);
                            assert(self.found_at(q) == sa.found_at(q));
                            assert(self.val_at(q) == sa.val_at(q));
                            assert(self.level_at(q) == sa.level_at(q));
                            assert(self.gid_at(q) == sa.gid_at(q));
                        }
                    }
                    assert forall|q: Coord|
                        old(self).in_b(q) && old(self).found_at(q) implies (
                    #[trigger] self.found_at(q)) && self.val_at(q) == old(self).val_at(q)
                        && self.level_at(q) == old(self).level_at(q) && self.gid_at(q) == old(
                        self,
                    ).gid_at(q) by {
                        if q == p {
                            assert(old(self).found_at(p));
                            assert(false);
                        }
                        assert(sa.found_at(q));
                        assert(sa.val_at(q) == old(self).val_at(q));
                        assert(sa.level_at(q) == old(self).level_at(q));
                        assert(sa.gid_at(q) == old(self).gid_at(q));
                        assert(self.found_at(q) == sa.found_at(q));
                        assert(self.val_at(q) == sa.val_at(q));
                        assert(self.level_at(q) == sa.level_at(q));
                        assert(self.gid_at(q) == sa.gid_at(q));
                    }
                }
            } else {
                proof {
                    assert forall|q: Coord|
                        old(self).in_b(q) && !old(self).found_at(q) && flat_of(size, q) < k + 1
                            && count_true(old(self).poss_at(q)) == 1 implies (
                    #[trigger] self.found_at(q)) && old(self).poss_at(q)[self.val_at(q) as int]
                        && self.level_at(q) == old(self).lvl() && self.gid_at(q) is None by {
                        lemma_flat_bound(size, q);
                        if flat_of(size, q) == k {
                            lemma_flat_injective(size, q, p);
                            assert(q == p);
                            assert(self.node(p) == old(self).node(p));
                            assert(is_open);
                            assert(count_true(self.node(p).poss()) == 1);
                            assert(u is Some);
                            assert(false);
                        } else {
                            assert(sa.found_at(q));
                            assert(old(self).poss_at(q)[sa.val_at(q) as int]);
                            assert(sa.level_at(q) == old(self).lvl());
                            assert(sa.gid_at(q) is None);
                        }
                    }
                }
            }
            proof {
                assert forall|q: Coord|
                    old(self).in_b(q) && !old(self).found_at(q) && !(flat_of(size, q) < k + 1
                        && count_true(old(self).poss_at(q)) == 1) implies #[trigger] self.node(q)
                    == old(self).node(q) by {
                    lemma_flat_bound(size, q);
                    if flat_of(size, q) == k {
                        lemma_flat_injective(size, q, p);
                    }
                    assert(sa.node(q) == old(self).node(q));
                    if u is Some {
                        assert(q != p) by {
                            if q == p {
                                assert(count_true(old(self).poss_at(p)) == 1);
                            }
                        }
                        assert(self.found_at(q) == sa.found_at(q));
                        assert(!sa.found_at(q));
                        assert(self.node(q) == sa.node(q));
                    }
                }
                assert(change == (exists|p2: Coord|
                    old(self).in_b(p2) && flat_of(size, p2) < k + 1 && !(
                    #[trigger] old(self).found_at(p2)) && count_true(old(self).poss_at(p2))
                        == 1)) by {
                    if change {
                        if u is Some {
                            assert(old(self).in_b(p) && flat_of(size, p) < k + 1 && !old(
                                self,
                            ).found_at(p) && count_true(old(self).poss_at(p)) == 1);
                        } else {
                            let w = choose|w: Coord|
                                old(self).in_b(w) && flat_of(size, w) < k && !(
                                #[trigger] old(self).found_at(w)) && count_true(
                                    old(self).poss_at(w),
                                ) == 1;
                            assert(flat_of(size, w) < k + 1);
                        }
                    } else {
                        if exists|p2: Coord|
                            old(self).in_b(p2) && flat_of(size, p2) < k + 1 && !(
                            #[trigger] old(self).found_at(p2)) && count_true(old(self).poss_at(p2))
                                == 1 {
                            let w = choose|w: Coord|
                                old(self).in_b(w) && flat_of(size, w) < k + 1 && !(
                                #[trigger] old(self).found_at(w)) && count_true(
                                    old(self).poss_at(w),
                                ) == 1;
                            if flat_of(size, w) == k {
                                lemma_flat_injective(size, w, p);
                                assert(w == p);
                                assert(u is Some);
                            }
                        }
                    }
                }
            }
            k += 1;
        }
        proof {
            assert forall|p: Coord|
                old(self).in_b(p) && !(#[trigger] old(self).found_at(p)) implies flat_of(
                size,
                p,
            ) < total by {
                lemma_flat_bound(size, p);
            }
        }
        if change {
            self.reset_possible();
        }
        change
    }

    /// Runs the forced-single sweep to a fixpoint.
    pub fn loop_basic(&mut self)
        requires
            old(self).inv(),
        ensures
            final(self).inv(),
            final(self).n() == old(self).n(),
            final(self).shape_s() == old(self).shape_s(),
            final(self).lvl() == old(self).lvl(),
            final(self).total_count() == old(self).total_count(),
            final(self).det_count() >= old(self).det_count(),
            forall|q: Coord|
                old(self).in_b(q) && old(self).found_at(q) ==> (#[trigger] final(self).found_at(
                    q,
                )) && final(self).val_at(q) == old(self).val_at(q),
            forall|p: Coord|
                final(self).in_b(p) && !(#[trigger] final(self).found_at(p)) ==> count_true(
                    final(self).poss_at(p),
                ) != 1,
    {
        proof {
            self.lemma_det_le_total();
        }
        let mut progressed = true;
        while progressed
            invariant
                self.inv(),
                self.n() == old(self).n(),
                self.shape_s() == old(self).shape_s(),
                self.lvl() == old(self).lvl(),
                self.stack() == old(self).stack(),
                self.total_count() == old(self).total_count(),
                self.det_count() >= old(self).det_count(),
                self.det_count() <= self.total_count(),
                forall|q: Coord|
                    old(self).in_b(q) && old(self).found_at(q) ==> (#[trigger] self.found_at(q))
                        && self.val_at(q) == old(self).val_at(q),
                !progressed ==> (forall|p: Coord|
                    self.in_b(p) && !(#[trigger] self.found_at(p)) ==> count_true(self.poss_at(p))
                        != 1),
            decreases 2 * (self.total_count() - self.det_count()) + (if progressed {
                1int
            } else {
                0int
            }),
        {
            progressed = self.solve_basic();
            proof {
                self.lemma_det_le_total();
            }
        }
    }

    /// The determined count never passes the number of cells.
    proof fn lemma_det_le_total(&self)
        requires
            self.wf(),
        ensures
            self.det_count() <= self.total_count(),
    {
        let size = self.n();
        lemma_all_seq(size);
        lemma_count_found_bounds(self.nodes@, size, all_seq(size));
    }

    /// Whether the open cell at `p` still offers value `v` as a candidate.
    pub closed spec fn offers(&self, p: Coord, v: int) -> bool {
        &&& self.in_b(p)
        &&& !self.found_at(p)
        &&& 0 <= v < self.n()
        &&& self.poss_at(p)[v]
    }

    /// Whether `p` is the only cell of region `r` that still offers value
    /// `v`: a hidden single.
    pub closed spec fn hidden_single(&self, r: usize, v: usize, p: Coord) -> bool {
        &&& r < 3 * self.n()
        &&& v < self.n()
        &&& (exists|k: int|
            0 <= k < self.n() && #[trigger] region_seq(self.n(), self.shape_s(), r)[k] == p)
        &&& self.offers(p, v as int)
        &&& (forall|k: int|
            0 <= k < self.n() && #[trigger] region_seq(self.n(), self.shape_s(), r)[k] != p
                ==> !self.offers(region_seq(self.n(), self.shape_s(), r)[k], v as int))
    }

    /// Determines every hidden single of the current grid — every cell that
    /// is the only one of some region to offer some value — at the current
    /// guess level; a cell that is the hidden single for exactly one value
    /// receives that value. All hidden singles are gathered over a full
    /// sweep of every region first and applied afterwards; candidates are
    /// re-derived if anything was assigned. Returns whether any cell was
    /// assigned.
    #[verifier::spinoff_prover]
    pub fn solve_exclusive(&mut self) -> (r: bool)
        requires
            old(self).inv(),
        ensures
            final(self).inv(),
            final(self).n() == old(self).n(),
            final(self).shape_s() == old(self).shape_s(),
            final(self).lvl() == old(self).lvl(),
            final(self).stack() == old(self).stack(),
            final(self).total_count() == old(self).total_count(),
            final(self).det_count() >= old(self).det_count(),
            r == (exists|ri: usize, v: usize, p: Coord| old(self).hidden_single(ri, v, p)),
            r ==> final(self).det_count() >= old(self).det_count() + 1,
            !r ==> *final(self) == *old(self),
            forall|q: Coord|
                old(self).in_b(q) && old(self).found_at(q) ==> (#[trigger] final(self).found_at(
                    q,
                )) && final(self).val_at(q) == old(self).val_at(q) && final(self).level_at(q)
                    == old(self).level_at(q) && final(self).gid_at(q) == old(self).gid_at(q),
            forall|ri: usize, v: usize, p: Coord|
                #[trigger] old(self).hidden_single(ri, v, p) ==> final(self).found_at(p),
            forall|ri: usize, v: usize, p: Coord|
                #[trigger] old(self).hidden_single(ri, v, p) && (forall|ri2: usize, v2: usize|
                    #[trigger] old(self).hidden_single(ri2, v2, p) ==> v2 == v) ==> final(self).val_at(p) == v,
            forall|q: Coord|
                old(self).in_b(q) && !old(self).found_at(q) && #[trigger] final(self).found_at(q)
                    ==> old(self).poss_at(q)[final(self).val_at(q) as int] && final(self).level_at(q) == old(self).lvl() && final(self).gid_at(q) is None,
    {
        let size = self.size;
        proof {
            assert(3 * size <= usize::MAX) by (nonlinear_arith)
                requires
                    size >= 1,
                    size * size <= usize::MAX,
            ;
        }
        let regions_total = 3 * size;
        let mut finds_p: Vec<Coord> = Vec::new();
        let mut finds_v: Vec<usize> = Vec::new();
        let mut finds_r: Vec<usize> = Vec::new();
        let mut ri: usize = 0;
        while ri < regions_total
            invariant
                ri <= regions_total,
                regions_total == 3 * size,
                *self == *old(self),
                finds_v@.len() == finds_p@.len(),
                finds_r@.len() == finds_p@.len(),
                forall|i: int|
                    0 <= i < finds_p@.len() ==> self.hidden_single(
                        finds_r@[i],
                        finds_v@[i],
                        #[trigger] finds_p@[i],
                    ),
                forall|r2: usize, v2: usize, p2: Coord|
                    r2 < ri && #[trigger] self.hidden_single(r2, v2, p2) ==> finds_p@.contains(
                        p2,
                    ),
            decreases regions_total - ri,
        {
            let mut v: usize = 0;
            while v < size
                invariant
                    v <= size,
                    ri < regions_total,
                    regions_total == 3 * size,
                    *self == *old(self),
                    finds_v@.len() == finds_p@.len(),
                    finds_r@.len() == finds_p@.len(),
                    forall|i: int|
                        0 <= i < finds_p@.len() ==> self.hidden_single(
                            finds_r@[i],
                            finds_v@[i],
                            #[trigger] finds_p@[i],
                        ),
                    forall|r2: usize, v2: usize, p2: Coord|
                        r2 < ri && #[trigger] self.hidden_single(r2, v2, p2) ==> finds_p@.contains(
                            p2,
                        ),
                    forall|v2: usize, p2: Coord|
                        v2 < v && #[trigger] self.hidden_single(ri, v2, p2) ==> finds_p@.contains(
                            p2,
                        ),
                decreases size - v,
            {
                let mut cand: Option<Coord> = None;
                let mut many = false;
                let mut kk: usize = 0;
                while kk < size
                    invariant
                        kk <= size,
                        v < size,
                        ri < regions_total,
                        regions_total == 3 * size,
                        *self == *old(self),
                        self.wf(),
                        !many && cand is None ==> (forall|k: int|
                            0 <= k < kk ==> !self.offers(
                                #[trigger] region_seq(size, self.shape_s(), ri)[k],
                                v as int,
                            )),
                        !many && cand is Some ==> {
                            let c = cand->Some_0;
                            &&& (exists|k: int|
                                0 <= k < kk && #[trigger] region_seq(size, self.shape_s(), ri)[k]
                                    == c)
                            &&& self.offers(c, v as int)
                            &&& (forall|k: int|
                                0 <= k < kk && #[trigger] region_seq(size, self.shape_s(), ri)[k]
                                    != c ==> !self.offers(
                                    region_seq(size, self.shape_s(), ri)[k],
                                    v as int,
                                ))
                        },
                        many ==> (exists|k1: int, k2: int|
                            0 <= k1 < kk && 0 <= k2 < kk && #[trigger] region_seq(
                                size,
                                self.shape_s(),
                                ri,
                            )[k1] != #[trigger] region_seq(size, self.shape_s(), ri)[k2]
                                && self.offers(region_seq(size, self.shape_s(), ri)[k1], v as int)
                                && self.offers(
                                region_seq(size, self.shape_s(), ri)[k2],
                                v as int,
                            )),
                    decreases size - kk,
                {
                    let q = crate::regions::region_pos(size, self.shape, ri, kk);
                    let i = flat_ix(size, q);
                    let offers_q: bool = match &self.nodes[i] {
                        Node::Possible(list) => {
                            proof {
                                assert(self.node(q) == self.nodes@[i as int]);
                                assert(self.node_ok(q));
                            }
                            list[v]
                        },
                        Node::Found(_) => false,
                    };
                    proof {
                        assert(offers_q == self.offers(q, v as int));
                    }
                    if offers_q {
                        match cand {
                            None => {
                                if !many {
                                    cand = Some(q);
                                }
                            },
                            Some(c) => {
                                if c != q {
                                    proof {
                                        if !many {
                                            let k1 = choose|k1: int|
                                                0 <= k1 < kk && #[trigger] region_seq(
                                                    size,
                                                    self.shape_s(),
                                                    ri,
                                                )[k1] == c;
                                            assert(region_seq(size, self.shape_s(), ri)[kk as int]
                                                == q);
                                        }
                                    }
                                    many = true;
                                    cand = None;
                                }
                            },
                        }
                    }
                    kk += 1;
                }
                proof {
                    if !many && cand is Some {
                        let c = cand->Some_0;
                        assert(self.hidden_single(ri, v, c));
                    }
                }
                if !many {
                    if let Some(c) = cand {
                        let ghost pre_p = finds_p@;
                        let ghost pre_v = finds_v@;
                        let ghost pre_r = finds_r@;
                        finds_p.push(c);
                        finds_v.push(v);
                        finds_r.push(ri);
                        proof {
                            assert(finds_p@ == pre_p.push(c));
                            assert(finds_p@[pre_p.len() as int] == c);
                            assert(finds_v@[pre_p.len() as int] == v);
                            assert(finds_r@[pre_p.len() as int] == ri);
                            assert(forall|i: int|
                                0 <= i < pre_p.len() ==> #[trigger] finds_p@[i] == pre_p[i]
                                    && finds_v@[i] == pre_v[i] && finds_r@[i] == pre_r[i]);
                            assert forall|r2: usize, v2: usize, p2: Coord|
                                r2 < ri && #[trigger] self.hidden_single(r2, v2, p2) implies
                                finds_p@.contains(p2) by {
                                assert(pre_p.contains(p2));
                                let t = choose|t: int| 0 <= t < pre_p.len() && pre_p[t] == p2;
                                assert(finds_p@[t] == p2);
                            }
                            assert forall|v2: usize, p2: Coord|
                                v2 < v + 1 && #[trigger] self.hidden_single(ri, v2, p2) implies
                                finds_p@.contains(p2) by {
                                if v2 < v {
                                    assert(pre_p.contains(p2));
                                    let t = choose|t: int| 0 <= t < pre_p.len() && pre_p[t] == p2;
                                    assert(finds_p@[t] == p2);
                                } else {
                                    assert(v2 == v);
                                    assert(p2 == c) by {
                                        if p2 != c {
                                            let kc = choose|kc: int|
                                                0 <= kc < size && #[trigger] region_seq(
                                                    size,
                                                    self.shape_s(),
                                                    ri,
                                                )[kc] == c;
                                            let kp = choose|kp: int|
                                                0 <= kp < size && #[trigger] region_seq(
                                                    size,
                                                    self.shape_s(),
                                                    ri,
                                                )[kp] == p2;
                                            assert(region_seq(size, self.shape_s(), ri)[kp] != c);
                                            assert(!self.offers(p2, v as int));
                                        }
                                    }
                                    assert(finds_p@[pre_p.len() as int] == p2);
                                }
                            }
                        }
                    } else {
                        proof {
                            assert forall|v2: usize, p2: Coord|
                                v2 < v + 1 && #[trigger] self.hidden_single(ri, v2, p2) implies
                                finds_p@.contains(p2) by {
                                if v2 == v {
                                    let kp = choose|kp: int|
                                        0 <= kp < size && #[trigger] region_seq(
                                            size,
                                            self.shape_s(),
                                            ri,
                                        )[kp] == p2;
                                    assert(!self.offers(region_seq(size, self.shape_s(), ri)[kp], v as int));
                                }
                            }
                        }
                    }
                } else {
                    proof {
                        assert forall|v2: usize, p2: Coord|
                            v2 < v + 1 && #[trigger] self.hidden_single(ri, v2, p2) implies
                            finds_p@.contains(p2) by {
                            if v2 == v {
                                let k1 = choose|k1: int, k2: int|
                                    0 <= k1 < size && 0 <= k2 < size && #[trigger] region_seq(
                                        size,
                                        self.shape_s(),
                                        ri,
                                    )[k1] != #[trigger] region_seq(size, self.shape_s(), ri)[k2]
                                        && self.offers(
                                        region_seq(size, self.shape_s(), ri)[k1],
                                        v as int,
                                    ) && self.offers(
                                        region_seq(size, self.shape_s(), ri)[k2],
                                        v as int,
                                    );
                            }
                        }
                    }
                }
                v += 1;
            }
            proof {
                assert forall|r2: usize, v2: usize, p2: Coord|
                    r2 < ri + 1 && #[trigger] self.hidden_single(r2, v2, p2) implies
                    finds_p@.contains(p2) by {
                }
            }
            ri += 1;
        }
        let found_any = finds_p.len() > 0;
        let ghost scan_state = *self;
        let mut idx: usize = 0;
        while idx < finds_p.len()
            invariant
                idx <= finds_p@.len(),
                finds_v@.len() == finds_p@.len(),
                finds_r@.len() == finds_p@.len(),
                self.wf(),
                self.size == old(self).size,
                self.shape == old(self).shape,
                self.guess_level == old(self).guess_level,
                self.stack() == old(self).stack(),
                self.total_count() == old(self).total_count(),
                self.det_count() >= old(self).det_count(),
                idx >= 1 && finds_p@.len() >= 1 ==> self.det_count() >= old(self).det_count()
                    + 1,
                idx == 0 ==> *self == *old(self),
                forall|i: int|
                    0 <= i < finds_p@.len() ==> old(self).hidden_single(
                        finds_r@[i],
                        finds_v@[i],
                        #[trigger] finds_p@[i],
                    ),
                forall|i: int|
                    0 <= i < idx ==> self.found_at(#[trigger] finds_p@[i]),
                forall|q: Coord|
                    old(self).in_b(q) && old(self).found_at(q) ==> (#[trigger] self.found_at(q))
                        && self.val_at(q) == old(self).val_at(q) && self.level_at(q) == old(
                        self,
                    ).level_at(q) && self.gid_at(q) == old(self).gid_at(q),
                forall|q: Coord|
                    old(self).in_b(q) && !old(self).found_at(q) && #[trigger] self.found_at(q)
                        ==> old(self).poss_at(q)[self.val_at(q) as int] && self.level_at(q) == old(
                        self,
                    ).lvl() && self.gid_at(q) is None,
                forall|q: Coord|
                    old(self).in_b(q) && !old(self).found_at(q) && #[trigger] self.found_at(q)
                        ==> (exists|ri2: usize|
                        old(self).hidden_single(ri2, self.val_at(q), q)),
                forall|q: Coord|
                    old(self).in_b(q) && !old(self).found_at(q) && !self.found_at(q)
                        ==> #[trigger] self.node(q) == old(self).node(q),
            decreases finds_p@.len() - idx,
        {
            let p = finds_p[idx];
            let v = finds_v[idx];
            proof {
                assert(old(self).hidden_single(finds_r@[idx as int], v, p));
                assert(old(self).offers(p, v as int));
                assert(old(self).in_b(p) && v < size);
            }
            let ghost sa = *self;
            proof {
                assert(!(sa.found_at(p) && sa.gid_at(p) is Some)) by {
                    if sa.found_at(p) {
                        assert(!old(self).found_at(p));
                        assert(sa.gid_at(p) is None);
                    }
                }
            }
            self.assign(p, v);
            proof {
                assert forall|q: Coord|
                    sa.in_b(q) && q != p implies (#[trigger] self.found_at(q)) == sa.found_at(
                    q,
                ) by {
                    lemma_flat_bound(size, q);
                }
                assert forall|q: Coord|
                    sa.in_b(q) && q != p && sa.found_at(q) implies (#[trigger] self.val_at(q))
                    == sa.val_at(q) && self.level_at(q) == sa.level_at(q) by {
                    lemma_flat_bound(size, q);
                    assert(self.found_at(q) == sa.found_at(q));
                }
                assert forall|q: Coord|
                    sa.in_b(q) && q != p && sa.found_at(q) implies (#[trigger] self.gid_at(q))
                    == sa.gid_at(q) by {
                    lemma_flat_bound(size, q);
                    assert(self.found_at(q) == sa.found_at(q));
                }
                assert forall|q: Coord|
                    sa.in_b(q) && q != p && !sa.found_at(q) implies (#[trigger] self.node(q))
                    == sa.node(q) by {
                    lemma_flat_bound(size, q);
                    assert(self.found_at(q) == sa.found_at(q));
                }
                assert forall|q: Coord|
                    old(self).in_b(q) && !old(self).found_at(q) && #[trigger] self.found_at(q)
                    implies (exists|ri2: usize|
                    old(self).hidden_single(ri2, self.val_at(q), q)) by {
                    if q == p {
                        assert(self.val_at(p) == v);
                        assert(old(self).hidden_single(finds_r@[idx as int], v, p));
                    } else {
                        assert(sa.found_at(q));
                        assert(self.val_at(q) == sa.val_at(q));
                        let ri2 = choose|ri2: usize|
                            old(self).hidden_single(ri2, sa.val_at(q), q);
                        assert(old(self).hidden_single(ri2, self.val_at(q), q));
                    }
                }
            }
            idx += 1;
        }
        let ghost s_ap = *self;
        if found_any {
            self.reset_possible();
        }
        proof {
            assert forall|q: Coord|
                old(self).in_b(q) implies (#[trigger] self.found_at(q)) == s_ap.found_at(q) && (
            s_ap.found_at(q) ==> self.node(q) == s_ap.node(q)) by {
                lemma_flat_bound(size, q);
            }
            assert forall|q: Coord|
                old(self).in_b(q) && old(self).found_at(q) implies (#[trigger] self.found_at(
                q,
            )) by {
            }
            assert forall|q: Coord|
                old(self).in_b(q) && old(self).found_at(q) implies (#[trigger] self.val_at(q))
                == old(self).val_at(q) && self.level_at(q) == old(self).level_at(q)
                && self.gid_at(q) == old(self).gid_at(q) by {
                assert(self.found_at(q) == s_ap.found_at(q));
                assert(s_ap.found_at(q));
            }
            assert forall|q: Coord|
                old(self).in_b(q) && !old(self).found_at(q) && #[trigger] self.found_at(q)
                implies old(self).poss_at(q)[self.val_at(q) as int] && self.level_at(q) == old(
                self,
            ).lvl() && self.gid_at(q) is None by {
                assert(s_ap.found_at(q));
            }
            assert forall|ri: usize, v: usize, p: Coord|
                #[trigger] old(self).hidden_single(ri, v, p) && (forall|ri2: usize, v2: usize|
                    #[trigger] old(self).hidden_single(ri2, v2, p) ==> v2 == v) implies
                self.val_at(p) == v by {
                assert(old(self).offers(p, v as int));
                assert(old(self).in_b(p) && !old(self).found_at(p));
                assert(self.found_at(p));
                assert(s_ap.found_at(p));
                assert(self.val_at(p) == s_ap.val_at(p)) by {
                    assert(self.node(p) == s_ap.node(p));
                }
                let ri2 = choose|ri2: usize| old(self).hidden_single(ri2, s_ap.val_at(p), p);
                assert(old(self).hidden_single(ri2, s_ap.val_at(p), p));
            }
        }
        proof {
            if found_any {
                assert(old(self).hidden_single(finds_r@[0], finds_v@[0], finds_p@[0]));
            } else {
                if exists|ri2: usize, v2: usize, p2: Coord| old(self).hidden_single(ri2, v2, p2) {
                    let (ri2, v2, p2) = choose|ri2: usize, v2: usize, p2: Coord|
                        old(self).hidden_single(ri2, v2, p2);
                    assert(finds_p@.contains(p2));
                }
            }
        }
        found_any
    }

    /// Runs the hidden-single sweep to a fixpoint.
    pub fn loop_exclusive(&mut self)
        requires
            old(self).inv(),
        ensures
            final(self).inv(),
            final(self).n() == old(self).n(),
            final(self).shape_s() == old(self).shape_s(),
            final(self).lvl() == old(self).lvl(),
            final(self).total_count() == old(self).total_count(),
            final(self).det_count() >= old(self).det_count(),
            forall|q: Coord|
                old(self).in_b(q) && old(self).found_at(q) ==> (#[trigger] final(self).found_at(
                    q,
                )) && final(self).val_at(q) == old(self).val_at(q),
            forall|ri: usize, v: usize, p: Coord|
                !(#[trigger] final(self).hidden_single(ri, v, p)),
    {
        proof {
            self.lemma_det_le_total();
        }
        let mut progressed = true;
        while progressed
            invariant
                self.inv(),
                self.n() == old(self).n(),
                self.shape_s() == old(self).shape_s(),
                self.lvl() == old(self).lvl(),
                self.total_count() == old(self).total_count(),
                self.det_count() >= old(self).det_count(),
                self.det_count() <= self.total_count(),
                forall|q: Coord|
                    old(self).in_b(q) && old(self).found_at(q) ==> (#[trigger] self.found_at(q))
                        && self.val_at(q) == old(self).val_at(q),
                !progressed ==> (forall|ri: usize, v: usize, p: Coord|
                    !(#[trigger] self.hidden_single(ri, v, p))),
            decreases 2 * (self.total_count() - self.det_count()) + (if progressed {
                1int
            } else {
                0int
            }),
        {
            progressed = self.solve_exclusive();
            proof {
                self.lemma_det_le_total();
            }
        }
    }

    /// Whether some cell is in a problem state: determined with a recorded
    /// conflict, or open with no candidate left.
    fn has_conflicts(&self) -> (r: bool)
        requires
            self.wf(),
        ensures
            r == self.some_problem(),
    {
        let size = self.size;
        let total = size * size;
        let mut k: usize = 0;
        while k < total
            invariant
                k <= total,
                forall|p: Coord|
                    #[trigger] self.in_b(p) && flat_of(size, p) < k ==> !(if self.found_at(p) {
                        self.confl_at(p).len() > 0
                    } else {
                        count_true(self.poss_at(p)) == 0
                    }),
            decreases total - k,
        {
            let p = pos_at(size, k);
            let bad = self.nodes[k].has_problems();
            proof {
                assert(self.node(p) == self.nodes@[k as int]);
            }
            if bad {
                proof {
                    assert(self.some_problem()) by {
                        assert(self.in_b(p) && (if self.found_at(p) {
                            self.confl_at(p).len() > 0
                        } else {
                            count_true(self.poss_at(p)) == 0
                        }));
                    }
                }
                return true;
            }
            proof {
                assert forall|q: Coord|
                    #[trigger] self.in_b(q) && flat_of(size, q) < k + 1 implies !(
                if self.found_at(q) {
                    self.confl_at(q).len() > 0
                } else {
                    count_true(self.poss_at(q)) == 0
                }) by {
                    if flat_of(size, q) == k {
                        lemma_flat_injective(size, q, p);
                    }
                }
            }
            k += 1;
        }
        proof {
            assert forall|p: Coord| #[trigger] self.in_b(p) implies flat_of(size, p) < total by {
                lemma_flat_bound(size, p);
            }
            assert(!self.some_problem()) by {
                if self.some_problem() {
                    let w = choose|w: Coord|
                        #[trigger] self.in_b(w) && (if self.found_at(w) {
                            self.confl_at(w).len() > 0
                        } else {
                            count_true(self.poss_at(w)) == 0
                        });
                    assert(flat_of(size, w) < total);
                }
            }
        }
        false
    }

    /// Whether some cell is in a problem state.
    pub closed spec fn some_problem(&self) -> bool {
        exists|p: Coord|
            #[trigger] self.in_b(p) && (if self.found_at(p) {
                self.confl_at(p).len() > 0
            } else {
                count_true(self.poss_at(p)) == 0
            })
    }

    /// Runs the deduction passes to a fixpoint: fails as soon as any cell is
    /// in a problem state, tries forced singles, then hidden singles, and
    /// succeeds once neither makes progress. A problem already present at
    /// entry fails immediately, before anything is touched; every value the
    /// passes assign was still a candidate at entry.
    #[verifier::spinoff_prover]
    pub fn full_solve_no_guessing(&mut self) -> (r: bool)
        requires
            old(self).inv(),
        ensures
            final(self).inv(),
            final(self).n() == old(self).n(),
            final(self).shape_s() == old(self).shape_s(),
            final(self).lvl() == old(self).lvl(),
            final(self).total_count() == old(self).total_count(),
            final(self).det_count() >= old(self).det_count(),
            final(self).stack() == old(self).stack(),
            forall|q: Coord|
                old(self).in_b(q) && old(self).found_at(q) ==> (#[trigger] final(self).found_at(
                    q,
                )) && final(self).val_at(q) == old(self).val_at(q) && final(self).level_at(q)
                    == old(self).level_at(q) && final(self).gid_at(q) == old(self).gid_at(q),
            r ==> !final(self).some_problem(),
            r ==> (forall|p: Coord|
                final(self).in_b(p) && !(#[trigger] final(self).found_at(p)) ==> count_true(
                    final(self).poss_at(p),
                ) != 1),
            r ==> (forall|ri: usize, v: usize, p: Coord|
                !(#[trigger] final(self).hidden_single(ri, v, p))),
            !r ==> final(self).some_problem(),
            forall|q: Coord|
                old(self).in_b(q) && !old(self).found_at(q) && #[trigger] final(self).found_at(q)
                    ==> final(self).level_at(q) == old(self).lvl(),
            forall|q: Coord|
                old(self).in_b(q) && !old(self).found_at(q) && #[trigger] final(self).found_at(q)
                    ==> old(self).poss_at(q)[final(self).val_at(q) as int],
            old(self).some_problem() ==> *final(self) == *old(self) && r == false,
            !old(self).some_problem() && old(self).det_count() == old(self).total_count() ==> r
                == true && *final(self) == *old(self),
    {
        proof {
            self.lemma_det_le_total();
            if old(self).det_count() == old(self).total_count() {
                let size = old(self).n();
                lemma_all_seq(size);
                lemma_count_found_full(old(self).nodes@, size, all_seq(size));
                assert forall|p: Coord| old(self).in_b(p) implies old(self).found_at(p) by {
                    lemma_flat_bound(size, p);
                    assert(all_seq(size)[flat_of(size, p)] == p);
                }
            }
        }
        let mut result = false;
        let mut done = false;
        while !done
            invariant
                self.inv(),
                self.n() == old(self).n(),
                self.shape_s() == old(self).shape_s(),
                self.lvl() == old(self).lvl(),
                self.total_count() == old(self).total_count(),
                self.det_count() >= old(self).det_count(),
                self.det_count() <= self.total_count(),
                self.stack() == old(self).stack(),
                forall|q: Coord|
                    old(self).in_b(q) && old(self).found_at(q) ==> (#[trigger] self.found_at(q)),
                forall|q: Coord|
                    old(self).in_b(q) && old(self).found_at(q) && (#[trigger] self.found_at(q))
                        ==> self.val_at(q) == old(self).val_at(q) && self.level_at(q) == old(
                        self,
                    ).level_at(q) && self.gid_at(q) == old(self).gid_at(q),
                done && result ==> !self.some_problem() && (forall|p: Coord|
                    self.in_b(p) && !(#[trigger] self.found_at(p)) ==> count_true(self.poss_at(p))
                        != 1) && (forall|ri: usize, v: usize, p: Coord|
                    !(#[trigger] self.hidden_single(ri, v, p))),
                done && !result ==> self.some_problem(),
                forall|q: Coord|
                    old(self).in_b(q) && !old(self).found_at(q) && #[trigger] self.found_at(q)
                        ==> self.level_at(q) == old(self).lvl(),
                forall|q: Coord|
                    old(self).in_b(q) && !old(self).found_at(q) && #[trigger] self.found_at(q)
                        ==> old(self).poss_at(q)[self.val_at(q) as int],
                old(self).some_problem() ==> *self == *old(self) && (done ==> !result),
                !old(self).some_problem() && old(self).det_count() == old(self).total_count()
                    ==> *self == *old(self) && (done ==> result),
            decreases 2 * (self.total_count() - self.det_count()) + (if done {
                0int
            } else {
                1int
            }),
        {
            let ghost sit = *self;
            if self.has_conflicts() {
                result = false;
                done = true;
            } else {
                let a = self.solve_basic();
                proof {
                    if !old(self).some_problem() && old(self).det_count() == old(
                        self,
                    ).total_count() {
                        assert(!a) by {
                            if a {
                                let w = choose|w: Coord|
                                    sit.in_b(w) && !(#[trigger] sit.found_at(w)) && count_true(
                                        sit.poss_at(w),
                                    ) == 1;
                                assert(old(self).found_at(w));
                            }
                        }
                    }
                    self.lemma_new_values_were_candidates(sit, *old(self));
                }
                if !a {
                    let b = self.solve_exclusive();
                    proof {
                        if !old(self).some_problem() && old(self).det_count() == old(
                            self,
                        ).total_count() {
                            assert(!b) by {
                                if b {
                                    let (ri2, v2, p2) = choose|ri2: usize, v2: usize, p2: Coord|
                                        sit.hidden_single(ri2, v2, p2);
                                    assert(sit.offers(p2, v2 as int));
                                    assert(old(self).found_at(p2));
                                }
                            }
                        }
                        self.lemma_new_values_were_candidates(sit, *old(self));
                    }
                    if !b {
                        result = true;
                        done = true;
                    }
                }
            }
            proof {
                self.lemma_det_le_total();
            }
        }
        result
    }

    /// A value a deduction pass assigns was still a candidate at the start
    /// of the whole run: candidates only shrink while cells are determined.
    proof fn lemma_new_values_were_candidates(&self, sit: State, orig: State)
        requires
            orig.inv(),
            sit.inv(),
            self.inv(),
            sit.n() == orig.n(),
            sit.shape_s() == orig.shape_s(),
            self.n() == sit.n(),
            self.shape_s() == sit.shape_s(),
            forall|q: Coord|
                orig.in_b(q) && orig.found_at(q) ==> (#[trigger] sit.found_at(q)) && sit.val_at(q)
                    == orig.val_at(q),
            forall|q: Coord|
                orig.in_b(q) && !orig.found_at(q) && #[trigger] sit.found_at(q)
                    ==> orig.poss_at(q)[sit.val_at(q) as int],
            forall|q: Coord|
                sit.in_b(q) && sit.found_at(q) ==> (#[trigger] self.found_at(q)) && self.val_at(q)
                    == sit.val_at(q),
            forall|q: Coord|
                sit.in_b(q) && !sit.found_at(q) && #[trigger] self.found_at(q) ==> sit.poss_at(
                    q,
                )[self.val_at(q) as int],
        ensures
            forall|q: Coord|
                orig.in_b(q) && !orig.found_at(q) && #[trigger] self.found_at(q) ==> orig.poss_at(
                    q,
                )[self.val_at(q) as int],
    {
        assert forall|q: Coord|
            orig.in_b(q) && !orig.found_at(q) && #[trigger] self.found_at(q) implies orig.poss_at(
            q,
        )[self.val_at(q) as int] by {
            if sit.found_at(q) {
            } else {
                assert(sit.poss_at(q)[self.val_at(q) as int]);
                let v = self.val_at(q) as int;
                assert(0 <= v < sit.n()) by {
                    assert(self.node_ok(q));
                    assert(self.val_at(q) < self.n());
                }
                assert(!sit.blocked(q, v));
                assert(!orig.blocked(q, v)) by {
                    if orig.blocked(q, v) {
                        let w = choose|w: Coord|
                            {
                                &&& #[trigger] orig.same_u(q, w)
                                &&& orig.in_b(w)
                                &&& orig.found_at(w)
                                &&& orig.val_at(w) == v
                            };
                        assert(sit.found_at(w) && sit.val_at(w) == orig.val_at(w));
                        assert(sit.same_u(q, w));
                        assert(sit.blocked(q, v));
                    }
                }
                assert(orig.poss_at(q)[v]);
            }
        }
    }

    /// The remaining-work measure of the first `n` guess-stack entries: a
    /// positional number whose digit at depth `i` is one more than the value
    /// guessed there. It grows strictly with every deeper guess and with
    /// every retry of a guess at a higher value, which bounds the search.
    pub closed spec fn mu_of(&self, n: int) -> int
        decreases n,
    {
        if n <= 0 {
            0
        } else {
            self.mu_of(n - 1) + (self.val_at(self.stack()[n - 1]) + 1) * pow(
                self.n() + 1,
                (self.n() * self.n() - (n - 1)) as nat,
            )
        }
    }

    /// The remaining-work measure of the whole guess stack.
    pub closed spec fn mu(&self) -> int {
        self.mu_of(self.stack().len() as int)
    }

    /// The measures of two states agree when their stacks and the guessed
    /// values agree.
    proof fn lemma_mu_of_congr(a: State, b: State, n: int)
        requires
            b.n() == a.n(),
            forall|i: int|
                0 <= i < n ==> #[trigger] b.stack()[i] == a.stack()[i] && b.val_at(b.stack()[i])
                    == a.val_at(a.stack()[i]),
        ensures
            b.mu_of(n) == a.mu_of(n),
        decreases n,
    {
        if n > 0 {
            Self::lemma_mu_of_congr(a, b, n - 1);
        }
    }

    /// The measure is bounded: with `d` cells it never reaches
    /// `pow(size + 1, d + 1)`.
    proof fn lemma_mu_of_cap(s: State, n: int)
        requires
            s.wf(),
            0 <= n <= s.stack().len(),
        ensures
            0 <= s.mu_of(n) <= pow(s.n() + 1, (s.n() * s.n() + 1) as nat) - pow(
                s.n() + 1,
                (s.n() * s.n() + 1 - n) as nat,
            ),
        decreases n,
    {
        let b = s.n() + 1;
        let d = s.n() * s.n();
        if n == 0 {
        } else {
            Self::lemma_mu_of_cap(s, n - 1);
            let p = s.stack()[n - 1];
            assert(s.in_b(p) && s.found_at(p));
            assert(s.node_ok(p));
            assert(s.val_at(p) < s.n());
            assert(s.stack().len() <= d);
            lemma_pow_positive(b, (d - (n - 1)) as nat);
            let e: nat = (d + 1 - (n - 1)) as nat;
            assert(e >= 1);
            assert(pow(b, e) == b * pow(b, (e - 1) as nat)) by {
                lemma_pow1(b);
                lemma_pow_adds(b, 1, (e - 1) as nat);
            }
            assert((e - 1) as nat == (d - (n - 1)) as nat);
            assert(pow(b, (d + 1 - (n - 1)) as nat) == b * pow(b, (d - (n - 1)) as nat));
            assert((s.val_at(p) + 1) * pow(b, (d - (n - 1)) as nat) <= (b - 1) * pow(
                b,
                (d - (n - 1)) as nat,
            )) by (nonlinear_arith)
                requires
                    s.val_at(p) + 1 <= b - 1,
                    pow(b, (d - (n - 1)) as nat) >= 1,
            ;
            assert((b - 1) * pow(b, (d - (n - 1)) as nat) == b * pow(b, (d - (n - 1)) as nat)
                - pow(b, (d - (n - 1)) as nat)) by (nonlinear_arith);
            assert(pow(b, (d + 1 - n) as nat) == pow(b, (d - (n - 1)) as nat));
        }
    }

    /// Picks the open cell with the fewest remaining candidates, ties broken
    /// by first position in row-major order; `None` when the grid is full.
    fn guess_candidate(&self) -> (r: Option<Coord>)
        requires
            self.inv(),
        ensures
            r is None <==> self.det_count() == self.total_count(),
            r matches Some(p) ==> {
                &&& self.in_b(p)
                &&& !self.found_at(p)
                &&& (forall|q: Coord|
                    self.in_b(q) && !(#[trigger] self.found_at(q)) ==> count_true(self.poss_at(p))
                        < count_true(self.poss_at(q)) || (count_true(self.poss_at(p))
                        == count_true(self.poss_at(q)) && flat_of(self.n(), p) <= flat_of(
                        self.n(),
                        q,
                    )))
            },
    {
        if self.finished.done() {
            proof {
                let size = self.n();
                lemma_all_seq(size);
                lemma_count_found_full(self.nodes@, size, all_seq(size));
                assert forall|q: Coord| self.in_b(q) implies #[trigger] self.found_at(q) by {
                    lemma_flat_bound(size, q);
                    assert(all_seq(size)[flat_of(size, q)] == q);
                }
            }
            return None;
        }
        let size = self.size;
        let total = size * size;
        proof {
            assert(size + 1 <= usize::MAX) by (nonlinear_arith)
                requires
                    size >= 1,
                    size * size <= usize::MAX,
            ;
        }
        let mut found_num: usize = size + 1;
        let mut found_pos: Option<Coord> = None;
        let mut k: usize = 0;
        while k < total
            invariant
                k <= total,
                found_pos is None ==> found_num == size + 1 && (forall|q: Coord|
                    self.in_b(q) && flat_of(size, q) < k ==> #[trigger] self.found_at(q)),
                found_pos matches Some(p) ==> {
                    &&& self.in_b(p)
                    &&& flat_of(size, p) < k
                    &&& !self.found_at(p)
                    &&& found_num == count_true(self.poss_at(p))
                    &&& (forall|q: Coord|
                        self.in_b(q) && flat_of(size, q) < k && !(#[trigger] self.found_at(q))
                            ==> count_true(self.poss_at(p)) < count_true(self.poss_at(q)) || (
                        count_true(self.poss_at(p)) == count_true(self.poss_at(q)) && flat_of(
                            size,
                            p,
                        ) <= flat_of(size, q)))
                },
            decreases total - k,
        {
            let p = pos_at(size, k);
            let num: Option<usize> = self.nodes[k].num_possibilities();
            proof {
                assert(self.node(p) == self.nodes@[k as int]);
                assert(self.node_ok(p));
                if !self.found_at(p) {
                    crate::node::lemma_count_true_bounds(
                        self.poss_at(p),
                        self.poss_at(p).len() as int,
                    );
                }
            }
            if let Some(num_v) = num {
                if num_v < found_num {
                    found_num = num_v;
                    found_pos = Some(p);
                }
            }
            proof {
                assert forall|q: Coord|
                    self.in_b(q) && flat_of(size, q) < k + 1 && q != p implies flat_of(size, q)
                    < k by {
                    if flat_of(size, q) == k {
                        lemma_flat_injective(size, q, p);
                    }
                }
            }
            k += 1;
        }
        proof {
            let size2 = self.n();
            assert forall|q: Coord| self.in_b(q) implies flat_of(size2, q) < total by {
                lemma_flat_bound(size2, q);
            }
            if found_pos is None {
                lemma_all_seq(size2);
                assert forall|j: int|
                    0 <= j < all_seq(size2).len() implies self.nodes@[flat_of(
                    size2,
                    #[trigger] all_seq(size2)[j],
                )].found() by {
                    assert(self.in_b(all_seq(size2)[j]));
                    assert(self.found_at(all_seq(size2)[j]));
                }
                crate::regions::lemma_count_found_complete(self.nodes@, size2, all_seq(size2));
                assert(self.det_count() == self.total_count());
            } else {
                assert(self.det_count() != self.total_count()) by {
                    let p = found_pos->Some_0;
                    lemma_all_seq(size2);
                    lemma_count_found_missing(
                        self.nodes@,
                        size2,
                        all_seq(size2),
                        flat_of(size2, p),
                    );
                    assert(all_seq(size2)[flat_of(size2, p)] == p);
                }
            }
        }
        found_pos
    }

    /// Makes one speculative assignment: raises the guess level, determines
    /// the fewest-candidates open cell as its lowest remaining candidate,
    /// and records the cell on the guess stack. Returns whether an open cell
    /// existed to guess at. Callers must not be at the top guess level and
    /// must know that no open cell has run out of candidates.
    #[verifier::spinoff_prover]
    pub fn guess(&mut self) -> (r: bool)
        requires
            old(self).inv(),
            old(self).lvl() < usize::MAX,
            forall|p: Coord|
                old(self).in_b(p) && !(#[trigger] old(self).found_at(p)) ==> count_true(
                    old(self).poss_at(p),
                ) >= 1,
        ensures
            final(self).inv(),
            final(self).n() == old(self).n(),
            final(self).shape_s() == old(self).shape_s(),
            final(self).total_count() == old(self).total_count(),
            r == (old(self).det_count() != old(self).total_count()),
            !r ==> *final(self) == *old(self),
            r ==> (forall|q: Coord|
                old(self).in_b(q) && old(self).found_at(q) ==> (#[trigger] final(self).found_at(
                    q,
                )) && final(self).val_at(q) == old(self).val_at(q) && final(self).level_at(q)
                    == old(self).level_at(q)),
            r ==> (forall|q: Coord|
                old(self).in_b(q) && !old(self).found_at(q) && #[trigger] final(self).found_at(q)
                    ==> final(self).level_at(q) == old(self).lvl() + 1),
            r ==> final(self).gid_at(final(self).stack().last()) == Some(
                (old(self).stack().len() as usize),
            ),
            r ==> {
                let p = final(self).stack().last();
                &&& old(self).in_b(p)
                &&& !old(self).found_at(p)
                &&& final(self).found_at(p)
                &&& final(self).val_at(p) < old(self).n()
                &&& old(self).poss_at(p)[final(self).val_at(p) as int]
                &&& (forall|w: int|
                    0 <= w < final(self).val_at(p) ==> !old(self).poss_at(p)[w])
                &&& (forall|q: Coord|
                    old(self).in_b(q) && !(#[trigger] old(self).found_at(q)) ==> count_true(
                        old(self).poss_at(p),
                    ) < count_true(old(self).poss_at(q)) || (count_true(old(self).poss_at(p))
                        == count_true(old(self).poss_at(q)) && flat_of(old(self).n(), p)
                        <= flat_of(old(self).n(), q)))
            },
            r ==> {
                &&& final(self).lvl() == old(self).lvl() + 1
                &&& final(self).det_count() == old(self).det_count() + 1
                &&& final(self).stack().len() == old(self).stack().len() + 1
                &&& (forall|i: int|
                    0 <= i < old(self).stack().len() ==> #[trigger] final(self).stack()[i] == old(
                        self,
                    ).stack()[i] && final(self).val_at(final(self).stack()[i]) == old(
                        self,
                    ).val_at(old(self).stack()[i]) && final(self).level_at(final(self).stack()[i])
                        == old(self).level_at(old(self).stack()[i]))
                &&& final(self).level_at(final(self).stack().last()) == old(self).lvl() + 1
                &&& final(self).mu() >= old(self).mu() + 1
            },
    {
        let size = self.size;
        let cand = self.guess_candidate();
        if let Some(p) = cand {
            let i = flat_ix(size, p);
            let mut solve: usize = 0;
            let mut hit = false;
            proof {
                assert(self.node_ok(p));
                assert(count_true(self.poss_at(p)) >= 1);
                crate::node::lemma_count_true_zero(
                    self.poss_at(p),
                    self.poss_at(p).len() as int,
                );
            }
            let list_first: Option<usize> = match &self.nodes[i] {
                Node::Possible(list) => crate::node::first_true(list),
                Node::Found(_) => None,
            };
            proof {
                assert(self.node(p) == self.nodes@[i as int]);
            }
            let v = match list_first {
                Some(v0) => v0,
                None => 0,
            };
            proof {
                assert(list_first is Some);
                assert(self.poss_at(p)[v as int] && v < size);
            }
            let ghost s0 = *self;
            self.inc_guess();
            let ghost s1 = *self;
            self.assign(p, v);
            let ghost s2 = *self;
            let mut tmp = Node::Possible(Vec::new());
            self.nodes.set_and_swap(i, &mut tmp);
            let gid = self.guesses.len();
            tmp.set_guess_id(gid);
            self.nodes.set_and_swap(i, &mut tmp);
            self.guesses.push(p);
            proof {
                assert forall|q: Coord|
                    s1.in_b(q) && q != p && s1.found_at(q) implies (#[trigger] s2.val_at(q))
                    == s1.val_at(q) && s2.level_at(q) == s1.level_at(q) by {
                    assert(s2.found_at(q) == s1.found_at(q));
                }
                self.lemma_guess_push_ok(s0, s1, s2, p, v);
            }
            let ghost s3 = *self;
            self.reset_possible();
            proof {
                assert forall|q: Coord|
                    old(self).in_b(q) && s3.found_at(q) implies #[trigger] self.node(q)
                    == s3.node(q) by {
                    lemma_flat_bound(size, q);
                }
                assert(self.stack() == s3.stack());
                assert forall|i2: int|
                    0 <= i2 < old(self).stack().len() implies #[trigger] self.stack()[i2] == old(
                    self,
                ).stack()[i2] && self.val_at(self.stack()[i2]) == old(self).val_at(
                    old(self).stack()[i2],
                ) && self.level_at(self.stack()[i2]) == old(self).level_at(
                    old(self).stack()[i2],
                ) by {
                    assert(s3.stack()[i2] == old(self).stack()[i2]);
                    assert(s3.in_b(s3.stack()[i2]) && s3.found_at(s3.stack()[i2]));
                    assert(self.node(s3.stack()[i2]) == s3.node(s3.stack()[i2]));
                }
                assert(self.level_at(self.stack().last()) == old(self).lvl() + 1) by {
                    assert(s3.in_b(p) && s3.found_at(p));
                    assert(self.node(p) == s3.node(p));
                }
                assert(self.stack().last() == p);
                assert(self.found_at(p) && self.val_at(p) == v) by {
                    assert(s3.found_at(p) && s3.val_at(p) == s2.val_at(p));
                    assert(self.node(p) == s3.node(p));
                }
                assert(self.gid_at(p) == Some((old(self).stack().len() as usize))) by {
                    assert(self.node(p) == s3.node(p));
                    assert(s3.gid_at(p) == Some((s2.guesses@.len() as usize)));
                    assert(s2.guesses@.len() == old(self).stack().len());
                }
                assert(old(self).poss_at(p)[v as int]);
                assert(forall|w: int| 0 <= w < v ==> !old(self).poss_at(p)[w]);
                assert forall|q: Coord|
                    old(self).in_b(q) && old(self).found_at(q) implies (#[trigger] self.found_at(
                    q,
                )) && self.val_at(q) == old(self).val_at(q) && self.level_at(q) == old(
                    self,
                ).level_at(q) by {
                    lemma_flat_bound(size, q);
                    assert(q != p);
                    assert(s1.node(q) == old(self).node(q));
                    assert(s2.found_at(q) == s1.found_at(q));
                    assert(s2.val_at(q) == s1.val_at(q));
            assert(s2.level_at(q) == s1.level_at(q));
                    assert(s3.node(q) == s2.node(q));
                    assert(self.node(q) == s3.node(q));
                }
                assert forall|q: Coord|
                    old(self).in_b(q) && !old(self).found_at(q) && #[trigger] self.found_at(q)
                    implies self.level_at(q) == old(self).lvl() + 1 by {
                    lemma_flat_bound(size, q);
                    if q == p {
                        assert(self.node(p) == s3.node(p));
                    } else {
                        assert(s1.node(q) == old(self).node(q));
                        assert(s2.found_at(q) == s1.found_at(q));
                        assert(s3.node(q) == s2.node(q));
                        assert(self.found_at(q) == s3.found_at(q));
                        assert(self.node(q) == s3.node(q) || !s3.found_at(q));
                        assert(!self.found_at(q));
                    }
                }
                assert(self.mu() >= old(self).mu() + 1) by {
                    Self::lemma_mu_of_congr(s3, *self, self.stack().len() as int);
                    Self::lemma_mu_of_congr(*old(self), s3, old(self).stack().len() as int);
                    let d = self.n() * self.n();
                    let len0 = old(self).stack().len() as int;
                    assert(s3.mu_of(len0 + 1) == s3.mu_of(len0) + (s3.val_at(s3.stack()[len0])
                        + 1) * pow(s3.n() + 1, (d - len0) as nat));
                    lemma_pow_positive(s3.n() + 1, (d - len0) as nat);
                    assert((s3.val_at(p) + 1) * pow(s3.n() + 1, (d - len0) as nat) >= 1)
                        by (nonlinear_arith)
                        requires
                            s3.val_at(p) >= 0,
                            pow(s3.n() + 1, (d - len0) as nat) >= 1,
                    ;
                }
            }
            true
        } else {
            false
        }
    }

    /// After the guessed cell's stack entry is recorded, the invariant holds
    /// again.
    #[verifier::spinoff_prover]
    #[verifier::rlimit(60)]
    proof fn lemma_guess_push_ok(&self, s0: State, s1: State, s2: State, p: Coord, v: usize)
        requires
            s0.inv(),
            s0.lvl() < usize::MAX,
            s0.in_b(p),
            !s0.found_at(p),
            s1.inv(),
            s1.n() == s0.n(),
            s1.shape_s() == s0.shape_s(),
            s1.lvl() == s0.lvl() + 1,
            s1.stack() == s0.stack(),
            s1.det_count() == s0.det_count(),
            s1.total_count() == s0.total_count(),
            forall|q: Coord| s0.in_b(q) ==> #[trigger] s1.node(q) == s0.node(q),
            s2.wf(),
            s2.n() == s1.n(),
            s2.shape_s() == s1.shape_s(),
            s2.lvl() == s1.lvl(),
            s2.stack() == s1.stack(),
            s2.det_count() == s1.det_count() + 1,
            s2.total_count() == s1.total_count(),
            s2.found_at(p),
            s2.val_at(p) == v,
            s2.level_at(p) == s1.lvl(),
            s2.gid_at(p) == None::<usize>,
            forall|q: Coord|
                s1.in_b(q) && q != p ==> (#[trigger] s2.found_at(q)) == s1.found_at(q),
            forall|q: Coord|
                s1.in_b(q) && q != p && s1.found_at(q) ==> (#[trigger] s2.val_at(q))
                    == s1.val_at(q) && s2.level_at(q) == s1.level_at(q),
            forall|q: Coord|
                s1.in_b(q) && q != p && s1.found_at(q) ==> #[trigger] s2.gid_at(q) == s1.gid_at(
                    q,
                ),
            self.size == s2.size,
            self.shape == s2.shape,
            self.guess_level == s2.guess_level,
            self.finished == s2.finished,
            self.guesses@ == s2.guesses@.push(p),
            self.nodes@.len() == s2.nodes@.len(),
            forall|t: int|
                0 <= t < s2.nodes@.len() && t != flat_of(s2.size, p) ==> #[trigger] self.nodes@[t]
                    == s2.nodes@[t],
            self.node(p).found(),
            self.node(p).val() == s2.val_at(p),
            self.node(p).level() == s2.level_at(p),
            self.node(p).confl() == s2.confl_at(p),
            self.node(p).gid() == Some((s2.guesses@.len() as usize)),
        ensures
            self.wf(),
            self.stack() == s2.stack().push(p),
            forall|q: Coord|
                s2.in_b(q) && q != p ==> #[trigger] self.node(q) == s2.node(q),
            self.found_at(p) && self.val_at(p) == s2.val_at(p) && self.level_at(p)
                == s2.level_at(p),
            self.det_count() == s2.det_count(),
            self.lvl() == s2.lvl(),
            forall|i: int|
                0 <= i < s2.stack().len() ==> #[trigger] self.stack()[i] == s0.stack()[i]
                    && self.val_at(self.stack()[i]) == s0.val_at(s0.stack()[i]) && self.level_at(
                    self.stack()[i],
                ) == s0.level_at(s0.stack()[i]),
    {
        assert forall|i: int|
            0 <= i < s2.stack().len() implies #[trigger] self.stack()[i] == s0.stack()[i] by {
            assert(s2.stack()[i] == s0.stack()[i]);
        }
        assert forall|i: int|
            0 <= i < s2.stack().len() implies self.val_at(#[trigger] self.stack()[i])
            == s0.val_at(s0.stack()[i]) && self.level_at(self.stack()[i]) == s0.level_at(
            s0.stack()[i],
        ) by {
            let q = s2.stack()[i];
            assert(s2.in_b(q) && s2.found_at(q) && s2.gid_at(q) == Some(i as usize));
            assert(q != p) by {
                if q == p {
                    assert(s2.gid_at(p) is None);
                }
            }
            lemma_flat_bound(s2.n(), q);
            assert(self.node(q) == s2.node(q)) by {
                if flat_of(s2.size, q) == flat_of(s2.size, p) {
                    lemma_flat_injective(s2.n(), q, p);
                }
            }
            assert(s1.in_b(q));
            assert(s1.found_at(q) == s2.found_at(q));
            assert(s1.found_at(q));
            assert(s2.val_at(q) == s1.val_at(q));
            assert(s2.level_at(q) == s1.level_at(q));
            assert(s1.node(q) == s0.node(q));
        }
        let size = s2.n();
        lemma_flat_bound(size, p);
        assert forall|q: Coord| s2.in_b(q) && q != p implies #[trigger] self.node(q) == s2.node(
            q,
        ) by {
            lemma_flat_bound(size, q);
            if flat_of(size, q) == flat_of(size, p) {
                lemma_flat_injective(size, q, p);
            }
        }
        assert forall|q: Coord| self.in_b(q) implies #[trigger] self.node_ok(q) by {
            lemma_flat_bound(size, q);
            assert(s2.node_ok(q));
            if q == p {
                assert(self.found_at(p) && self.val_at(p) == s2.val_at(p));
                assert(self.confl_at(p) == s2.confl_at(p));
                assert forall|t: int|
                    0 <= t < self.confl_at(q).len() implies self.in_b(
                    #[trigger] self.confl_at(q)[t],
                ) by {
                    assert(self.confl_at(q)[t] == s2.confl_at(q)[t]);
                }
                assert forall|t1: int, t2: int|
                    0 <= t1 < self.confl_at(q).len() && 0 <= t2 < self.confl_at(q).len() && t1
                        != t2 implies #[trigger] self.confl_at(q)[t1]
                    != #[trigger] self.confl_at(q)[t2] by {
                    assert(self.confl_at(q)[t1] == s2.confl_at(q)[t1]);
                    assert(self.confl_at(q)[t2] == s2.confl_at(q)[t2]);
                }
                assert(self.level_at(p) == s1.lvl() && self.lvl() == s1.lvl());
                assert(self.node_ok(q));
            } else {
                assert(self.node(q) == s2.node(q));
                Self::lemma_node_ok_congr(s2, *self, q);
            }
        }
        assert(self.counts_ok()) by {
            assert forall|q: Coord|
                s2.in_b(q) implies (#[trigger] s2.found_at(q)) == self.found_at(q) by {
                if q != p {
                    assert(self.node(q) == s2.node(q));
                }
            }
            Self::lemma_counts_congr(s2, *self);
        }
        assert forall|a: Coord, b: Coord|
            #![trigger self.has_confl(a, b)]
            #![trigger self.conflicting(a, b)]
            self.in_b(a) && self.in_b(b) implies (self.has_confl(a, b) <==> self.conflicting(
            a,
            b,
        )) by {
            lemma_flat_bound(size, a);
            lemma_flat_bound(size, b);
            assert(s2.has_confl(a, b) <==> s2.conflicting(a, b));
            if a != p {
                assert(self.node(a) == s2.node(a));
            } else {
                assert(self.found_at(a) == s2.found_at(a) && self.val_at(a) == s2.val_at(a)
                    && self.confl_at(a) == s2.confl_at(a));
            }
            if b != p {
                assert(self.node(b) == s2.node(b));
            } else {
                assert(self.found_at(b) == s2.found_at(b) && self.val_at(b) == s2.val_at(b));
            }
            assert(self.has_confl(a, b) == s2.has_confl(a, b));
            assert(self.conflicting(a, b) == s2.conflicting(a, b));
        }
        assert(self.stack_ok()) by {
            let len0 = s2.guesses@.len() as int;
            assert(!s2.stack().contains(p)) by {
                if s2.stack().contains(p) {
                    let t = choose|t: int| 0 <= t < s2.stack().len() && s2.stack()[t] == p;
                    assert(s2.gid_at(s2.stack()[t]) == Some(t as usize));
                    assert(s2.gid_at(p) is None);
                }
            }
            assert(self.guesses@.len() == len0 + 1);
            assert(self.guesses@.len() <= self.size * self.size) by {
                lemma_all_seq(size);
                Self::lemma_all_distinct(size);
                assert forall|t: int|
                    0 <= t < self.guesses@.len() implies self.nodes@[flat_of(
                    size,
                    #[trigger] self.guesses@[t],
                )].found() && in_grid(size, self.guesses@[t]) by {
                    if t < len0 {
                        assert(self.guesses@[t] == s2.guesses@[t]);
                        assert(s2.found_at(s2.guesses@[t]) && s2.in_b(s2.guesses@[t]));
                        lemma_flat_bound(size, s2.guesses@[t]);
                        assert(self.found_at(s2.guesses@[t]) == s2.found_at(s2.guesses@[t]));
                    } else {
                        assert(self.guesses@[t] == p);
                    }
                }
                assert forall|t1: int, t2: int|
                    0 <= t1 < self.guesses@.len() && 0 <= t2 < self.guesses@.len() && t1 != t2
                    implies self.guesses@[t1] != self.guesses@[t2] by {
                    if t1 < len0 && t2 < len0 {
                        assert(self.guesses@[t1] == s2.guesses@[t1] && self.guesses@[t2]
                            == s2.guesses@[t2]);
                    } else if t1 < len0 {
                        assert(self.guesses@[t2] == p && self.guesses@[t1] == s2.guesses@[t1]);
                        assert(s2.stack().contains(s2.guesses@[t1]));
                    } else if t2 < len0 {
                        assert(self.guesses@[t1] == p && self.guesses@[t2] == s2.guesses@[t2]);
                        assert(s2.stack().contains(s2.guesses@[t2]));
                    }
                }
                let gs = self.guesses@;
                assert forall|j: int|
                    0 <= j < gs.len() implies self.nodes@[flat_of(
                    size,
                    #[trigger] gs[j],
                )].found() by {
                    assert(self.nodes@[flat_of(size, self.guesses@[j])].found());
                }
                crate::regions::lemma_count_found_complete(self.nodes@, size, gs);
                assert(count_found_in(self.nodes@, size, self.guesses@) == self.guesses@.len());
                assert forall|j: int|
                    0 <= j < self.guesses@.len() implies all_seq(size).contains(
                    #[trigger] self.guesses@[j],
                ) by {
                    assert(in_grid(size, self.guesses@[j]));
                    lemma_flat_bound(size, self.guesses@[j]);
                    assert(all_seq(size)[flat_of(size, self.guesses@[j])] == self.guesses@[j]);
                }
                crate::regions::lemma_count_found_subset(
                    self.nodes@,
                    size,
                    self.guesses@,
                    all_seq(size),
                );
                assert(count_found_all(self.nodes@, size) == count_found_all(s2.nodes@, size)) by {
                    assert forall|j: int|
                        0 <= j < all_seq(size).len() implies s2.nodes@[flat_of(
                        size,
                        #[trigger] all_seq(size)[j],
                    )].found() == self.nodes@[flat_of(size, all_seq(size)[j])].found() by {
                        let q = all_seq(size)[j];
                        if q != p {
                            assert(self.node(q) == s2.node(q));
                        } else {
                            assert(self.found_at(p) && s2.found_at(p));
                        }
                    }
                    lemma_count_found_congr(s2.nodes@, self.nodes@, size, all_seq(size));
                }
                assert(count_found_all(s2.nodes@, size) == s2.det_count());
                s2.lemma_det_le_total();
                assert(s2.total_count() == size * size);
            }
            assert forall|t: int| 0 <= t < self.guesses@.len() implies {
                &&& self.in_b(#[trigger] self.guesses@[t])
                &&& self.found_at(self.guesses@[t])
                &&& self.gid_at(self.guesses@[t]) == Some(t as usize)
            } by {
                if t < len0 {
                    assert(self.guesses@[t] == s2.guesses@[t]);
                    let q = s2.guesses@[t];
                    assert(s2.in_b(q) && s2.found_at(q) && s2.gid_at(q) == Some(t as usize));
                    assert(q != p);
                    assert(self.node(q) == s2.node(q));
                } else {
                    assert(self.guesses@[t] == p);
                }
            }
            assert forall|q: Coord|
                self.in_b(q) && self.found_at(q) && (#[trigger] self.gid_at(q)) is Some implies
                self.gid_at(q)->Some_0 < self.guesses@.len() && self.guesses@[self.gid_at(
                q,
            )->Some_0 as int] == q by {
                lemma_flat_bound(size, q);
                if q == p {
                } else {
                    assert(self.node(q) == s2.node(q));
                    assert(s2.found_at(q) && s2.gid_at(q) == self.gid_at(q));
                    assert(s2.gid_at(q)->Some_0 < s2.guesses@.len());
                    assert(self.guesses@[self.gid_at(q)->Some_0 as int] == s2.guesses@[
                    s2.gid_at(q)->Some_0 as int]);
                }
            }
            assert forall|t1: int, t2: int|
                0 <= t1 < t2 < self.guesses@.len() implies self.level_at(
                #[trigger] self.guesses@[t1],
            ) < self.level_at(#[trigger] self.guesses@[t2]) by {
                if t2 < len0 {
                    let q1 = s2.guesses@[t1];
                    let q2 = s2.guesses@[t2];
                    assert(s2.level_at(q1) < s2.level_at(q2));
                    assert(q1 != p && q2 != p);
                    assert(self.node(q1) == s2.node(q1) && self.node(q2) == s2.node(q2));
                } else {
                    assert(self.guesses@[t2] == p);
                    assert(self.level_at(p) == s2.lvl());
                    let q1 = s2.guesses@[t1];
                    assert(s2.in_b(q1) && s2.found_at(q1));
                    assert(s2.node_ok(q1));
                    assert(s2.level_at(q1) <= s2.guess_level);
                    assert(s1.lvl() == s0.lvl() + 1);
                    assert(q1 != p);
                    assert(self.node(q1) == s2.node(q1));
                    assert(s0.in_b(q1));
                    assert(s1.node(q1) == s0.node(q1));
                    assert(s2.found_at(q1) == s1.found_at(q1));
                    assert(s1.found_at(q1) && s0.found_at(q1));
                    assert(s2.val_at(q1) == s1.val_at(q1) && s2.level_at(q1) == s1.level_at(q1));
                    assert(s0.node_ok(q1));
                    assert(s0.level_at(q1) <= s0.guess_level);
                }
            }
        }
    }

    /// A rollback that keeps exactly the low-level cells keeps exactly a
    /// prefix of the guess stack, entry for entry: entries are ordered by
    /// strictly increasing level, and only those above the threshold fall.
    proof fn lemma_stack_prefix(pre: State, post: State, lv: int, i: int)
        requires
            pre.wf(),
            post.wf(),
            post.n() == pre.n(),
            forall|p: Coord|
                post.stack().contains(p) <==> (pre.stack().contains(p) && post.found_at(p)),
            forall|q: Coord|
                pre.in_b(q) && #[trigger] post.found_at(q) ==> pre.found_at(q) && post.level_at(q)
                    == pre.level_at(q),
            forall|q: Coord|
                pre.in_b(q) && #[trigger] post.found_at(q) ==> post.level_at(q) <= lv,
            forall|q: Coord|
                pre.in_b(q) && #[trigger] pre.found_at(q) && pre.level_at(q) <= lv
                    ==> post.found_at(q),
            0 <= i < post.stack().len(),
        ensures
            forall|t: int| 0 <= t <= i ==> #[trigger] post.stack()[t] == pre.stack()[t],
            i < pre.stack().len(),
        decreases i,
    {
        if i > 0 {
            Self::lemma_stack_prefix(pre, post, lv, i - 1);
        }
        let pi = post.stack()[i];
        assert(post.in_b(pi) && post.found_at(pi) && post.gid_at(pi) == Some(i as usize));
        assert(post.stack().contains(pi));
        assert(pre.stack().contains(pi));
        let ts = choose|ts: int| 0 <= ts < pre.stack().len() && pre.stack()[ts] == pi;
        assert(ts >= i) by {
            if ts < i {
                assert(post.stack()[ts] == pre.stack()[ts]);
                assert(post.stack()[ts] == post.stack()[i]);
            }
        }
        assert(i < pre.stack().len());
        let qi = pre.stack()[i];
        assert(pre.in_b(qi) && pre.found_at(qi));
        assert(pre.level_at(qi) <= lv) by {
            if pre.level_at(qi) > lv {
                assert(ts > i) by {
                    if ts == i {
                        assert(post.level_at(pi) == pre.level_at(pi));
                    }
                }
                assert(pre.level_at(pre.stack()[i]) < pre.level_at(pre.stack()[ts]));
                assert(post.level_at(pi) == pre.level_at(pi));
            }
        }
        assert(post.found_at(qi));
        assert(post.stack().contains(qi)) by {
            assert(pre.stack().contains(qi)) by {
                assert(pre.stack()[i] == qi);
            }
        }
        let u = choose|u: int| 0 <= u < post.stack().len() && post.stack()[u] == qi;
        assert(u >= i) by {
            if u < i {
                assert(post.stack()[u] == pre.stack()[u]);
            }
        }
        assert(u == i) by {
            if u > i {
                assert(post.level_at(post.stack()[i]) < post.level_at(post.stack()[u]));
                assert(post.level_at(post.stack()[u]) == pre.level_at(qi));
                assert(ts >= i);
                if ts > i {
                    assert(pre.level_at(pre.stack()[i]) < pre.level_at(pre.stack()[ts]));
                    assert(post.level_at(pi) == pre.level_at(pi));
                } else {
                    assert(pi == qi);
                }
            }
        }
        assert(post.stack()[i] == pre.stack()[i]);
    }

    /// One level of rollback during a retry either leaves the guess stack
    /// alone (when the dropped level held no guess) or pops exactly the
    /// retried entry (when the level reaches it).
    proof fn lemma_retry_dec_effect(
        &self,
        sd: State,
        sit: State,
        pos: Coord,
        j: int,
        plevel: int,
        last: int,
    )
        requires
            sd.inv(),
            self.inv(),
            sd.lvl() >= 1,
            self.n() == sd.n(),
            self.lvl() == sd.lvl() - 1,
            forall|q: Coord|
                sd.in_b(q) && sd.found_at(q) && sd.level_at(q) < sd.lvl() ==> (
                #[trigger] self.found_at(q)) && self.val_at(q) == sd.val_at(q) && self.level_at(q)
                    == sd.level_at(q),
            forall|q: Coord|
                sd.in_b(q) && #[trigger] self.found_at(q) ==> sd.found_at(q) && sd.level_at(q)
                    < sd.lvl() && self.val_at(q) == sd.val_at(q) && self.level_at(q)
                    == sd.level_at(q),
            forall|p: Coord|
                self.stack().contains(p) <==> (sd.stack().contains(p) && self.found_at(p)),
            sit.n() == sd.n(),
            sd.stack().len() == sit.stack().len(),
            sit.stack().len() >= 1,
            j == sit.stack().len() - 1,
            forall|i: int|
                0 <= i < sd.stack().len() ==> #[trigger] sd.stack()[i] == sit.stack()[i]
                    && sd.val_at(sd.stack()[i]) == sit.val_at(sit.stack()[i]) && sd.level_at(
                    sd.stack()[i],
                ) == sit.level_at(sit.stack()[i]),
            sit.stack()[j] == pos,
            sd.in_b(pos),
            sd.found_at(pos),
            sd.level_at(pos) == plevel,
            sd.val_at(pos) == last,
            sd.lvl() >= plevel,
            plevel >= 1,
            sd.mu() == sit.mu(),
        ensures
            self.lvl() >= plevel - 1,
            sd.lvl() - 1 >= plevel ==> {
                &&& self.found_at(pos)
                &&& self.stack().len() == sit.stack().len()
                &&& (forall|i: int|
                    0 <= i < self.stack().len() ==> #[trigger] self.stack()[i] == sit.stack()[i]
                        && self.val_at(self.stack()[i]) == sit.val_at(sit.stack()[i])
                        && self.level_at(self.stack()[i]) == sit.level_at(sit.stack()[i]))
                &&& self.mu() == sit.mu()
                &&& self.lvl() >= plevel
            },
            sd.lvl() - 1 < plevel ==> {
                &&& !self.found_at(pos)
                &&& self.stack().len() == j
                &&& (forall|i: int|
                    0 <= i < j ==> #[trigger] self.stack()[i] == sit.stack()[i] && self.val_at(
                        self.stack()[i],
                    ) == sit.val_at(sit.stack()[i]) && self.level_at(self.stack()[i])
                        == sit.level_at(sit.stack()[i]))
                &&& self.mu() == sit.mu() - (last + 1) * pow(
                    self.n() + 1,
                    (self.n() * self.n() - j) as nat,
                )
                &&& self.lvl() == plevel - 1
            },
    {
        let lv = sd.lvl() - 1;
        assert forall|q: Coord|
            sd.in_b(q) && #[trigger] self.found_at(q) implies sd.found_at(q) && self.level_at(q)
            == sd.level_at(q) && self.level_at(q) <= lv by {
        }
        if self.stack().len() > 0 {
            Self::lemma_stack_prefix(sd, *self, lv, self.stack().len() - 1);
        }
        if sd.lvl() - 1 >= plevel {
            assert(self.found_at(pos));
            assert(self.stack().len() == sd.stack().len()) by {
                if self.stack().len() < sd.stack().len() {
                    let t = self.stack().len() as int;
                    let q = sd.stack()[t];
                    assert(sd.in_b(q) && sd.found_at(q));
                    assert(sd.level_at(q) <= plevel) by {
                        if t < j {
                            assert(sd.level_at(sd.stack()[t]) < sd.level_at(sd.stack()[j]));
                            assert(sd.level_at(sd.stack()[j]) == plevel);
                        } else {
                            assert(t == j);
                        }
                    }
                    assert(self.found_at(q));
                    assert(sd.stack().contains(q)) by {
                        assert(sd.stack()[t] == q);
                    }
                    assert(self.stack().contains(q));
                    let u = choose|u: int| 0 <= u < self.stack().len() && self.stack()[u] == q;
                    assert(self.stack()[u] == sd.stack()[u]);
                    assert(sd.stack()[u] == sd.stack()[t] && u != t);
                }
                assert(self.stack().len() <= sd.stack().len()) by {
                    if self.stack().len() > sd.stack().len() {
                        let t = sd.stack().len() as int;
                        assert(self.stack()[t] == sd.stack()[t]);
                    }
                }
            }
            assert forall|i: int|
                0 <= i < self.stack().len() implies #[trigger] self.stack()[i] == sit.stack()[i]
                && self.val_at(self.stack()[i]) == sit.val_at(sit.stack()[i]) && self.level_at(
                self.stack()[i],
            ) == sit.level_at(sit.stack()[i]) by {
                assert(self.stack()[i] == sd.stack()[i]);
                let q = sd.stack()[i];
                assert(sd.in_b(q) && sd.found_at(q));
                assert(self.found_at(q));
                assert(self.val_at(q) == sd.val_at(q) && self.level_at(q) == sd.level_at(q));
            }
            assert(self.mu() == sit.mu()) by {
                Self::lemma_mu_of_congr(sd, *self, self.stack().len() as int);
            }
        } else {
            assert(sd.lvl() == plevel);
            assert(!self.found_at(pos)) by {
                if self.found_at(pos) {
                    assert(self.level_at(pos) == plevel);
                    assert(self.level_at(pos) <= lv);
                }
            }
            assert(self.stack().len() <= j) by {
                if self.stack().len() > j {
                    assert(self.stack()[j] == sd.stack()[j]);
                    assert(sd.stack()[j] == pos);
                    assert(self.in_b(self.stack()[j]) && self.found_at(self.stack()[j]));
                }
            }
            assert(self.stack().len() >= j) by {
                if self.stack().len() < j {
                    let t = self.stack().len() as int;
                    let q = sd.stack()[t];
                    assert(sd.in_b(q) && sd.found_at(q));
                    assert(sd.level_at(sd.stack()[t]) < sd.level_at(sd.stack()[j]));
                    assert(sd.level_at(q) < plevel);
                    assert(self.found_at(q));
                    assert(sd.stack().contains(q)) by {
                        assert(sd.stack()[t] == q);
                    }
                    assert(self.stack().contains(q));
                    let u = choose|u: int| 0 <= u < self.stack().len() && self.stack()[u] == q;
                    assert(self.stack()[u] == sd.stack()[u]);
                    assert(sd.stack()[u] == sd.stack()[t] && u != t);
                }
            }
            assert forall|i: int|
                0 <= i < j implies #[trigger] self.stack()[i] == sit.stack()[i] && self.val_at(
                self.stack()[i],
            ) == sit.val_at(sit.stack()[i]) && self.level_at(self.stack()[i]) == sit.level_at(
                sit.stack()[i],
            ) by {
                assert(self.stack()[i] == sd.stack()[i]);
                let q = sd.stack()[i];
                assert(sd.in_b(q) && sd.found_at(q));
                assert(sd.level_at(sd.stack()[i]) < sd.level_at(sd.stack()[j]));
                assert(self.found_at(q));
                assert(self.val_at(q) == sd.val_at(q) && self.level_at(q) == sd.level_at(q));
            }
            assert(self.mu() == sit.mu() - (last + 1) * pow(
                self.n() + 1,
                (self.n() * self.n() - j) as nat,
            )) by {
                Self::lemma_mu_of_congr(sd, *self, j);
                assert(sd.mu_of(j + 1) == sd.mu_of(j) + (sd.val_at(sd.stack()[j]) + 1) * pow(
                    sd.n() + 1,
                    (sd.n() * sd.n() - j) as nat,
                ));
            }
        }
    }

    /// Takes back the most recent guess and tries the next candidate for its
    /// cell: rolls back to just below the guess, and either re-determines the
    /// cell at the next still-open candidate value above the one tried, or
    /// discards the guess for good and moves on to the one below. Returns
    /// false only when the guess stack is exhausted.
    #[verifier::spinoff_prover]
    #[verifier::rlimit(100)]
    fn retry_guess(&mut self, Ghost(base): Ghost<int>) -> (r: bool)
        requires
            old(self).inv(),
            old(self).lvl() >= base,
            forall|i: int|
                0 <= i < old(self).stack().len() ==> old(self).level_at(
                    #[trigger] old(self).stack()[i],
                ) > base,
        ensures
            final(self).inv(),
            final(self).n() == old(self).n(),
            final(self).shape_s() == old(self).shape_s(),
            final(self).total_count() == old(self).total_count(),
            final(self).lvl() <= old(self).lvl(),
            final(self).lvl() >= base,
            old(self).stack().len() == 0 ==> *final(self) == *old(self) && !r,
            forall|i: int|
                0 <= i < final(self).stack().len() ==> final(self).level_at(
                    #[trigger] final(self).stack()[i],
                ) > base,
            forall|q: Coord|
                old(self).in_b(q) && old(self).found_at(q) && old(self).level_at(q) <= base ==> (
                #[trigger] final(self).found_at(q)),
            forall|q: Coord|
                old(self).in_b(q) && old(self).found_at(q) && old(self).level_at(q) <= base && (
                #[trigger] final(self).found_at(q)) ==> final(self).val_at(q) == old(self).val_at(
                    q,
                ) && final(self).level_at(q) == old(self).level_at(q),
            forall|q: Coord|
                old(self).in_b(q) && #[trigger] final(self).found_at(q) ==> ((old(self).found_at(
                    q,
                ) && final(self).val_at(q) == old(self).val_at(q) && final(self).level_at(q)
                    == old(self).level_at(q)) || final(self).level_at(q) > base),
            !r ==> final(self).stack().len() == 0,
            r ==> {
                &&& final(self).stack().len() >= 1
                &&& final(self).stack().len() <= old(self).stack().len()
                &&& (forall|i: int|
                    0 <= i < final(self).stack().len() - 1 ==> #[trigger] final(self).stack()[i]
                        == old(self).stack()[i] && final(self).val_at(final(self).stack()[i])
                        == old(self).val_at(old(self).stack()[i]) && final(self).level_at(
                        final(self).stack()[i],
                    ) == old(self).level_at(old(self).stack()[i]))
                &&& final(self).level_at(final(self).stack().last()) == old(self).level_at(
                    old(self).stack()[final(self).stack().len() - 1],
                )
                &&& final(self).lvl() == final(self).level_at(final(self).stack().last())
                &&& final(self).mu() >= old(self).mu() + 1
            },
    {
        let size = self.size;
        let ghost b = self.n() + 1;
        let ghost d = self.n() * self.n();
        let mut result = false;
        let mut done = false;
        proof {
            lemma_pow_positive(b, (d + 1 - self.stack().len()) as nat);
        }
        while !done
            invariant
                self.inv(),
                self.n() == old(self).n(),
                self.shape_s() == old(self).shape_s(),
                self.total_count() == old(self).total_count(),
                self.lvl() <= old(self).lvl(),
                b == self.n() + 1,
                d == self.n() * self.n(),
                self.stack().len() <= old(self).stack().len(),
                forall|i: int|
                    0 <= i < self.stack().len() && (!done || !result || i < self.stack().len()
                        - 1) ==> #[trigger] self.stack()[i] == old(self).stack()[i]
                        && self.val_at(self.stack()[i]) == old(self).val_at(old(self).stack()[i])
                        && self.level_at(self.stack()[i]) == old(self).level_at(
                        old(self).stack()[i],
                    ),
                forall|i: int|
                    0 <= i < self.stack().len() ==> #[trigger] self.stack()[i] == old(
                        self,
                    ).stack()[i],
                old(self).mu() <= self.mu() + pow(b, (d + 1 - self.stack().len()) as nat) - 1,
                self.lvl() >= base,
                forall|i: int|
                    0 <= i < self.stack().len() ==> self.level_at(#[trigger] self.stack()[i])
                        > base,
                forall|q: Coord|
                    old(self).in_b(q) && old(self).found_at(q) && old(self).level_at(q) <= base
                        ==> (#[trigger] self.found_at(q)),
                forall|q: Coord|
                    old(self).in_b(q) && old(self).found_at(q) && old(self).level_at(q) <= base
                        && (#[trigger] self.found_at(q)) ==> self.val_at(q) == old(self).val_at(q)
                        && self.level_at(q) == old(self).level_at(q),
                forall|q: Coord|
                    old(self).in_b(q) && #[trigger] self.found_at(q) ==> ((old(self).found_at(q)
                        && self.val_at(q) == old(self).val_at(q) && self.level_at(q) == old(
                        self,
                    ).level_at(q)) || self.level_at(q) > base),
                done && !result ==> self.stack().len() == 0,
                old(self).stack().len() == 0 ==> *self == *old(self) && !result,
                done && result ==> {
                    &&& self.stack().len() >= 1
                    &&& self.level_at(self.stack().last()) == old(self).level_at(
                        old(self).stack()[self.stack().len() - 1],
                    )
                    &&& self.lvl() == self.level_at(self.stack().last())
                    &&& self.mu() >= old(self).mu() + 1
                },
            decreases 2 * self.stack().len() + (if done {
                0int
            } else {
                1int
            }),
        {
            proof {
                Self::lemma_mu_of_congr(*old(self), *self, self.stack().len() as int);
            }
            let len = self.guesses.len();
            if len == 0 {
                proof {
                    assert(self.stack().len() == 0);
                    lemma_pow_positive(b, (d + 1) as nat);
                    assert(old(self).mu() <= self.mu() + pow(
                        b,
                        (d + 1 - self.stack().len()) as nat,
                    ) - 1);
                }
                result = false;
                done = true;
            } else {
                let pos = self.guesses[len - 1];
                let ghost j = len - 1;
                let ghost plevel = self.level_at(pos) as int;
                let last: usize = match &self.nodes[flat_ix(size, pos)] {
                    Node::Found(dd) => dd.num,
                    Node::Possible(_) => 0,
                };
                proof {
                    assert(self.in_b(pos) && self.found_at(pos));
                    assert(self.node(pos) == self.nodes@[flat_of(size, pos) as int]);
                    assert(last == self.val_at(pos));
                    assert(self.node_ok(pos));
                    assert(self.gid_at(pos) == Some((len - 1) as usize));
                    assert(plevel >= 1 && plevel <= self.lvl());
                }
                let ghost sit = *self;
                let mut cleared = !self.nodes[flat_ix(size, pos)].is_found();
                proof {
                    assert(!cleared);
                    assert(plevel > base) by {
                        assert(sit.level_at(sit.stack()[j]) > base);
                    }
                }
                while !cleared
                    invariant
                        self.inv(),
                        self.n() == sit.n(),
                        self.shape_s() == sit.shape_s(),
                        self.total_count() == sit.total_count(),
                        sit.in_b(pos),
                        sit.stack().len() >= 1,
                        j == sit.stack().len() - 1,
                        sit.stack()[j] == pos,
                        plevel >= 1,
                        b == self.n() + 1,
                        d == self.n() * self.n(),
                        cleared == !self.found_at(pos),
                        plevel > base,
                        self.lvl() >= base,
                        forall|i: int|
                            0 <= i < self.stack().len() ==> self.level_at(
                                #[trigger] self.stack()[i],
                            ) > base,
                        forall|q: Coord|
                            old(self).in_b(q) && old(self).found_at(q) && old(self).level_at(q)
                                <= base ==> (#[trigger] self.found_at(q)),
                        forall|q: Coord|
                            old(self).in_b(q) && old(self).found_at(q) && old(self).level_at(q)
                                <= base && (#[trigger] self.found_at(q)) ==> self.val_at(q)
                                == old(self).val_at(q) && self.level_at(q) == old(self).level_at(
                                q,
                            ),
                        forall|q: Coord|
                            old(self).in_b(q) && #[trigger] self.found_at(q) ==> ((old(
                                self,
                            ).found_at(q) && self.val_at(q) == old(self).val_at(q)
                                && self.level_at(q) == old(self).level_at(q)) || self.level_at(q)
                                > base),
                        !cleared ==> {
                            &&& self.stack().len() == sit.stack().len()
                            &&& (forall|i: int|
                                0 <= i < self.stack().len() ==> #[trigger] self.stack()[i]
                                    == sit.stack()[i] && self.val_at(self.stack()[i])
                                    == sit.val_at(sit.stack()[i]) && self.level_at(
                                    self.stack()[i],
                                ) == sit.level_at(sit.stack()[i]))
                            &&& self.mu() == sit.mu()
                            &&& self.lvl() >= plevel
                            &&& self.val_at(pos) == last
                            &&& self.level_at(pos) == plevel
                        },
                        cleared ==> {
                            &&& self.stack().len() == j
                            &&& (forall|i: int|
                                0 <= i < j ==> #[trigger] self.stack()[i] == sit.stack()[i]
                                    && self.val_at(self.stack()[i]) == sit.val_at(
                                    sit.stack()[i],
                                ) && self.level_at(self.stack()[i]) == sit.level_at(
                                    sit.stack()[i],
                                ))
                            &&& self.lvl() == plevel - 1
                            &&& self.mu() == sit.mu() - (last + 1) * pow(b, (d - j) as nat)
                        },
                    decreases self.lvl(),
                {
                    let ghost sd = *self;
                    proof {
                        assert(self.found_at(pos));
                        assert(self.node_ok(pos));
                        assert(self.lvl() >= self.level_at(pos));
                        assert(self.lvl() >= 1);
                    }
                    self.dec_guess();
                    proof {
                        assert forall|q: Coord|
                            sd.in_b(q) && sd.found_at(q) && sd.level_at(q) < sd.lvl() implies (
                        #[trigger] self.found_at(q)) && self.val_at(q) == sd.val_at(q)
                            && self.level_at(q) == sd.level_at(q) by {
                        }
                        self.lemma_retry_dec_effect(sd, sit, pos, j, plevel, last as int);
                        Self::lemma_mu_of_congr(sit, sd, sd.stack().len() as int);
                        assert forall|q: Coord|
                            old(self).in_b(q) && old(self).found_at(q) && old(self).level_at(q)
                                <= base implies (#[trigger] self.found_at(q)) && self.val_at(q)
                            == old(self).val_at(q) && self.level_at(q) == old(self).level_at(
                            q,
                        ) by {
                            assert(sd.found_at(q));
                            assert(sd.val_at(q) == old(self).val_at(q));
                            assert(sd.level_at(q) == old(self).level_at(q));
                            assert(sd.level_at(q) <= base);
                            assert(sd.lvl() >= plevel && plevel > base);
                            assert(sd.level_at(q) < sd.lvl());
                            assert(self.found_at(q));
                        }
                        assert forall|q: Coord|
                            old(self).in_b(q) && #[trigger] self.found_at(q) implies ((old(
                            self,
                        ).found_at(q) && self.val_at(q) == old(self).val_at(q) && self.level_at(q)
                            == old(self).level_at(q)) || self.level_at(q) > base) by {
                            assert(sd.found_at(q));
                            assert(self.val_at(q) == sd.val_at(q));
                            assert(self.level_at(q) == sd.level_at(q));
                        }
                        assert forall|i: int|
                            0 <= i < self.stack().len() implies self.level_at(
                            #[trigger] self.stack()[i],
                        ) > base by {
                            if sd.lvl() - 1 >= plevel {
                                assert(self.level_at(self.stack()[i]) == sit.level_at(
                                    sit.stack()[i],
                                ));
                            } else {
                                assert(self.level_at(self.stack()[i]) == sit.level_at(
                                    sit.stack()[i],
                                ));
                            }
                        }
                    }
                    cleared = !self.node_at(pos).is_found();
                }
                proof {
                    assert(self.stack().len() == j);
                }
                let nxt: Option<usize> = match self.node_at(pos) {
                    Node::Possible(list) => crate::node::next_true(list, last),
                    Node::Found(_) => None,
                };
                if let Some(v2) = nxt {
                    proof {
                        assert(!self.found_at(pos));
                        assert(self.node_ok(pos));
                        assert(v2 < size);
                        assert(self.lvl() < usize::MAX);
                    }
                    let ghost s0 = *self;
                    self.inc_guess();
                    let ghost s1 = *self;
                    self.assign(pos, v2);
                    let ghost s2 = *self;
                    let i2 = flat_ix(size, pos);
                    let mut tmp = Node::Possible(Vec::new());
                    self.nodes.set_and_swap(i2, &mut tmp);
                    let gid = self.guesses.len();
                    tmp.set_guess_id(gid);
                    self.nodes.set_and_swap(i2, &mut tmp);
                    self.guesses.push(pos);
                    proof {
                        self.lemma_guess_push_ok(s0, s1, s2, pos, v2);
                    }
                    let ghost s3 = *self;
                    self.reset_possible();
                    proof {
                        assert(self.stack() == s3.stack());
                        assert(s3.stack() == s0.stack().push(pos));
                        assert(self.stack().len() == j + 1);
                        assert forall|i: int|
                            0 <= i < j + 1 implies #[trigger] self.stack()[i] == s3.stack()[i]
                            && self.val_at(self.stack()[i]) == s3.val_at(s3.stack()[i])
                            && self.level_at(self.stack()[i]) == s3.level_at(s3.stack()[i]) by {
                            assert(s3.in_b(s3.stack()[i]) && s3.found_at(s3.stack()[i]));
                            assert(self.node(s3.stack()[i]) == s3.node(s3.stack()[i]));
                        }
                        assert forall|i: int|
                            0 <= i < j implies #[trigger] self.stack()[i] == old(self).stack()[i]
                            && self.val_at(self.stack()[i]) == old(self).val_at(
                            old(self).stack()[i],
                        ) && self.level_at(self.stack()[i]) == old(self).level_at(
                            old(self).stack()[i],
                        ) by {
                            assert(s3.stack()[i] == s0.stack()[i]);
                            assert(s3.val_at(s3.stack()[i]) == s0.val_at(s0.stack()[i]));
                            assert(s3.level_at(s3.stack()[i]) == s0.level_at(s0.stack()[i]));
                            assert(s0.stack()[i] == sit.stack()[i]);
                            assert(sit.stack()[i] == old(self).stack()[i]);
                        }
                        assert(self.level_at(self.stack().last()) == plevel) by {
                            assert(s3.level_at(pos) == s0.lvl() + 1);
                            assert(s0.lvl() == plevel - 1);
                            assert(self.node(pos) == s3.node(pos));
                        }
                        assert(self.lvl() == plevel);
                        assert(sit.level_at(sit.stack()[j]) == plevel);
                        assert(old(self).level_at(old(self).stack()[j]) == plevel) by {
                            assert(sit.stack()[j] == old(self).stack()[j]);
                            assert(sit.level_at(sit.stack()[j]) == old(self).level_at(
                                old(self).stack()[j],
                            ));
                        }
                        assert forall|q: Coord|
                            old(self).in_b(q) && old(self).found_at(q) && old(self).level_at(q)
                                <= base implies (#[trigger] self.found_at(q)) && self.val_at(q)
                            == old(self).val_at(q) && self.level_at(q) == old(self).level_at(
                            q,
                        ) by {
                            lemma_flat_bound(size, q);
                            assert(s0.found_at(q));
                            assert(s0.val_at(q) == old(self).val_at(q));
                            assert(s0.level_at(q) == old(self).level_at(q));
                            assert(q != pos);
                            assert(s1.node(q) == s0.node(q));
                            assert(s2.found_at(q) == s1.found_at(q));
                            assert(s2.val_at(q) == s1.val_at(q));
                            assert(s2.level_at(q) == s1.level_at(q));
                            assert(s3.node(q) == s2.node(q));
                            assert(self.node(q) == s3.node(q));
                        }
                        assert forall|q: Coord|
                            old(self).in_b(q) && #[trigger] self.found_at(q) implies ((old(
                            self,
                        ).found_at(q) && self.val_at(q) == old(self).val_at(q) && self.level_at(q)
                            == old(self).level_at(q)) || self.level_at(q) > base) by {
                            lemma_flat_bound(size, q);
                            if q == pos {
                                assert(self.node(pos) == s3.node(pos));
                                assert(self.level_at(pos) == plevel);
                            } else {
                                assert(self.node(q) == s3.node(q) || !s3.found_at(q));
                                assert(self.found_at(q) == s3.found_at(q));
                                assert(s3.node(q) == s2.node(q));
                                assert(s2.found_at(q) == s1.found_at(q));
                                assert(s1.node(q) == s0.node(q));
                                assert(s0.found_at(q));
                                assert(s2.val_at(q) == s1.val_at(q));
                                assert(s2.level_at(q) == s1.level_at(q));
                                assert(self.val_at(q) == s0.val_at(q));
                                assert(self.level_at(q) == s0.level_at(q));
                            }
                        }
                        assert forall|i: int|
                            0 <= i < self.stack().len() implies self.level_at(
                            #[trigger] self.stack()[i],
                        ) > base by {
                            if i < j {
                                assert(self.level_at(self.stack()[i]) == s0.level_at(
                                    s0.stack()[i],
                                ));
                            } else {
                                assert(self.level_at(self.stack().last()) == plevel);
                            }
                        }
                        assert(self.mu() >= old(self).mu() + 1) by {
                            Self::lemma_mu_of_congr(s3, *self, (j + 1) as int);
                            assert(s3.mu_of(j + 1) == s3.mu_of(j) + (s3.val_at(s3.stack()[j]) + 1)
                                * pow(b, (d - j) as nat));
                            Self::lemma_mu_of_congr(s0, s3, j as int);
                            assert(s3.val_at(pos) == v2);
                            assert(s0.mu() == sit.mu() - (last + 1) * pow(b, (d - j) as nat));
                            assert(old(self).mu() <= sit.mu() + pow(b, (d + 1 - (j + 1)) as nat)
                                - 1);
                            lemma_pow_positive(b, (d - j) as nat);
                            assert((v2 + 1) * pow(b, (d - j) as nat) >= (last + 1) * pow(
                                b,
                                (d - j) as nat,
                            ) + pow(b, (d - j) as nat)) by (nonlinear_arith)
                                requires
                                    v2 >= last + 1,
                                    pow(b, (d - j) as nat) >= 1,
                            ;
                            assert((d + 1 - (j + 1)) as nat == (d - j) as nat);
                        }
                        assert(self.stack().len() == j + 1);
                        assert((d + 1 - (j + 1)) as nat == (d - j) as nat);
                        lemma_pow_positive(b, (d - j) as nat);
                        assert(old(self).mu() <= self.mu() + pow(
                            b,
                            (d + 1 - self.stack().len()) as nat,
                        ) - 1);
                    }
                    result = true;
                    done = true;
                } else {
                    proof {
                        assert(self.stack().len() == j);
                        lemma_pow_positive(b, (d - j) as nat);
                        assert((last + 1) * pow(b, (d - j) as nat) <= (b - 1) * pow(
                            b,
                            (d - j) as nat,
                        )) by (nonlinear_arith)
                            requires
                                last + 1 <= b - 1,
                                pow(b, (d - j) as nat) >= 1,
                        ;
                        assert(pow(b, (d + 1 - j) as nat) == b * pow(b, (d - j) as nat)) by {
                            lemma_pow1(b);
                            lemma_pow_adds(b, 1, (d - j) as nat);
                            assert((d + 1 - j) as nat == 1 + (d - j) as nat);
                        }
                        assert((d + 1 - (j + 1)) as nat == (d - j) as nat);
                        assert forall|i: int|
                            0 <= i < j implies #[trigger] self.stack()[i] == old(self).stack()[i]
                            && self.val_at(self.stack()[i]) == old(self).val_at(
                            old(self).stack()[i],
                        ) && self.level_at(self.stack()[i]) == old(self).level_at(
                            old(self).stack()[i],
                        ) by {
                            assert(self.stack()[i] == sit.stack()[i]);
                            assert(self.val_at(self.stack()[i]) == sit.val_at(sit.stack()[i]));
                            assert(self.level_at(self.stack()[i]) == sit.level_at(
                                sit.stack()[i],
                            ));
                            assert(sit.stack()[i] == old(self).stack()[i]);
                        }
                        assert(old(self).mu() <= sit.mu() + pow(b, (d - j) as nat) - 1);
                        assert(self.mu() == sit.mu() - (last + 1) * pow(b, (d - j) as nat));
                        assert((b - 1) * pow(b, (d - j) as nat) + pow(b, (d - j) as nat) == b
                            * pow(b, (d - j) as nat)) by (nonlinear_arith);
                        assert(old(self).mu() <= self.mu() + (last + 1) * pow(b, (d - j) as nat)
                            + pow(b, (d - j) as nat) - 1);
                        assert(old(self).mu() <= self.mu() + pow(
                            b,
                            (d + 1 - self.stack().len()) as nat,
                        ) - 1);
                    }
                }
            }
        }
        proof {
            assert forall|q: Coord|
                old(self).in_b(q) && old(self).found_at(q) && old(self).level_at(q) <= base
                implies (#[trigger] self.found_at(q)) by {
            }
            assert forall|q: Coord|
                old(self).in_b(q) && old(self).found_at(q) && old(self).level_at(q) <= base
                implies (#[trigger] self.val_at(q)) == old(self).val_at(q) && self.level_at(q)
                == old(self).level_at(q) by {
                assert(self.found_at(q));
            }
        }
        result
    }

    /// Whether `sol`, an assignment of one value to every position, solves
    /// the grid: values in range, distinct across every row, column and
    /// block, and agreeing with every determined cell.
    pub closed spec fn solution_of(&self, sol: spec_fn(Coord) -> usize) -> bool {
        &&& (forall|p: Coord| self.in_b(p) ==> (#[trigger] sol(p)) < self.n())
        &&& (forall|a: Coord, b: Coord|
            self.in_b(a) && self.in_b(b) && #[trigger] self.same_u(a, b) ==> sol(a) != sol(b))
        &&& (forall|p: Coord|
            self.in_b(p) && #[trigger] self.found_at(p) ==> sol(p) == self.val_at(p))
    }

    /// Whether the determined cells extend to a complete, conflict-free
    /// grid.
    pub closed spec fn solvable(&self) -> bool {
        exists|sol: spec_fn(Coord) -> usize| self.solution_of(sol)
    }

    /// Two distinct determined cells of equal value in one row, column or
    /// block make a problem cell: their conflict is recorded on both sides.
    pub proof fn lemma_equal_pair_is_problem(s: State, a: Coord, b: Coord)
        requires
            s.inv(),
            s.in_b(a),
            s.in_b(b),
            a != b,
            crate::coord::same_row(a, b) || crate::coord::same_col(a, b)
                || crate::coord::same_block(s.shape_s(), a, b),
            s.found_at(a),
            s.found_at(b),
            s.val_at(a) == s.val_at(b),
        ensures
            s.has_confl(a, b),
            s.has_confl(b, a),
            s.some_problem(),
    {
        assert(s.same_u(a, b));
        assert(s.conflicting(a, b) && s.conflicting(b, a));
        assert(s.has_confl(a, b) && s.has_confl(b, a));
        assert(s.some_problem()) by {
            assert(s.confl_at(a).contains(b));
            assert(s.in_b(a) && (if s.found_at(a) {
                s.confl_at(a).len() > 0
            } else {
                count_true(s.poss_at(a)) == 0
            }));
        }
    }

    /// A grid without problem cells holds no two equal values in any row,
    /// column or block: conflict records are exact, so a problem-free grid
    /// has no conflicting pair at all.
    pub proof fn lemma_no_problem_no_equal_pair(s: State)
        requires
            s.inv(),
            !s.some_problem(),
        ensures
            forall|a: Coord, b: Coord|
                s.in_b(a) && s.in_b(b) && #[trigger] s.same_u(a, b) && s.found_at(a)
                    && s.found_at(b) ==> s.val_at(a) != s.val_at(b),
            forall|a: Coord, b: Coord|
                #![trigger s.found_at(a), s.found_at(b)]
                s.in_b(a) && s.in_b(b) && a != b && (crate::coord::same_row(a, b)
                    || crate::coord::same_col(a, b) || crate::coord::same_block(
                    s.shape_s(),
                    a,
                    b,
                )) && s.found_at(a) && s.found_at(b) ==> s.val_at(a) != s.val_at(b),
    {
        assert forall|a: Coord, b: Coord|
            s.in_b(a) && s.in_b(b) && #[trigger] s.same_u(a, b) && s.found_at(a) && s.found_at(
            b,
        ) implies s.val_at(a) != s.val_at(b) by {
            if s.val_at(a) == s.val_at(b) {
                assert(s.conflicting(a, b));
                assert(s.has_confl(a, b));
                assert(s.some_problem()) by {
                    assert(s.confl_at(a).contains(b));
                    let t = choose|t: int| 0 <= t < s.confl_at(a).len() && s.confl_at(a)[t] == b;
                    assert(s.in_b(a) && (if s.found_at(a) {
                        s.confl_at(a).len() > 0
                    } else {
                        count_true(s.poss_at(a)) == 0
                    }));
                }
            }
        }
        assert forall|a: Coord, b: Coord|
            #![trigger s.found_at(a), s.found_at(b)]
            s.in_b(a) && s.in_b(b) && a != b && (crate::coord::same_row(a, b)
                || crate::coord::same_col(a, b) || crate::coord::same_block(
                s.shape_s(),
                a,
                b,
            )) && s.found_at(a) && s.found_at(b) implies s.val_at(a) != s.val_at(b) by {
            assert(s.same_u(a, b));
        }
    }

    /// Runs the full backtracking search: deduction to a fixpoint, a guess
    /// when deduction succeeds, a retry when it fails, until the grid is
    /// complete or the guess stack runs out. Returns whether every cell is
    /// determined at the end; failure leaves the guess stack exhausted, and
    /// a success reached without problem cells (starting from no recorded
    /// guesses) witnesses that the entry grid was solvable.
    #[verifier::spinoff_prover]
    pub fn full_solve(&mut self) -> (r: bool)
        requires
            old(self).inv(),
            old(self).lvl() + old(self).n() * old(self).n() + 1 <= usize::MAX,
        ensures
            final(self).inv(),
            final(self).n() == old(self).n(),
            final(self).shape_s() == old(self).shape_s(),
            final(self).total_count() == old(self).total_count(),
            r == (final(self).det_count() == final(self).total_count()),
            !r ==> final(self).stack().len() == 0,
            r ==> (forall|p: Coord| final(self).in_b(p) ==> #[trigger] final(self).found_at(p)),
            !old(self).some_problem() && old(self).det_count() == old(self).total_count() ==> r
                == true && *final(self) == *old(self),
            old(self).some_problem() && old(self).stack().len() == 0 && old(self).det_count()
                != old(self).total_count() ==> r == false && *final(self) == *old(self),
            old(self).stack().len() == 0 && r && !final(self).some_problem() ==> old(
                self,
            ).solvable(),
            old(self).stack().len() == 0 ==> final(self).lvl() >= old(self).lvl(),
            old(self).stack().len() == 0 ==> (forall|i: int|
                0 <= i < final(self).stack().len() ==> final(self).level_at(
                    #[trigger] final(self).stack()[i],
                ) > old(self).lvl()),
            old(self).stack().len() == 0 ==> (forall|q: Coord|
                old(self).in_b(q) && old(self).found_at(q) ==> (#[trigger] final(self).found_at(
                    q,
                ))),
            old(self).stack().len() == 0 ==> (forall|q: Coord|
                old(self).in_b(q) && old(self).found_at(q) && (#[trigger] final(self).found_at(q))
                    ==> final(self).val_at(q) == old(self).val_at(q) && final(self).level_at(q)
                    == old(self).level_at(q)),
            old(self).stack().len() == 0 ==> (forall|q: Coord|
                old(self).in_b(q) && #[trigger] final(self).found_at(q) ==> ((old(self).found_at(
                    q,
                ) && final(self).val_at(q) == old(self).val_at(q) && final(self).level_at(q)
                    == old(self).level_at(q)) || final(self).level_at(q) >= old(self).lvl())),
    {
        let ghost base = old(self).lvl() as int;
        let ghost gb: int = if old(self).stack().len() == 0 {
            base
        } else {
            -1
        };
        let ghost b = self.n() + 1;
        let ghost d = self.n() * self.n();
        let mut result = false;
        let mut done = false;
        proof {
            assert forall|i: int|
                0 <= i < self.stack().len() implies self.level_at(#[trigger] self.stack()[i])
                <= base + i + 1 by {
                let q = self.stack()[i];
                assert(self.in_b(q) && self.found_at(q));
                assert(self.node_ok(q));
            }
            Self::lemma_mu_of_cap(*self, self.stack().len() as int);
            lemma_pow_positive(b, (d + 1 - self.stack().len()) as nat);
            lemma_pow_positive(b, (d + 1) as nat);
            assert(pow(b, (d + 2) as nat) == b * pow(b, (d + 1) as nat)) by {
                lemma_pow1(b);
                lemma_pow_adds(b, 1, (d + 1) as nat);
                assert((d + 2) as nat == 1 + (d + 1) as nat);
            }
            assert(pow(b, (d + 2) as nat) >= pow(b, (d + 1) as nat) + 1) by (nonlinear_arith)
                requires
                    pow(b, (d + 2) as nat) == b * pow(b, (d + 1) as nat),
                    b >= 2,
                    pow(b, (d + 1) as nat) >= 1,
            ;
        }
        while !done
            invariant
                self.inv(),
                self.n() == old(self).n(),
                self.shape_s() == old(self).shape_s(),
                self.total_count() == old(self).total_count(),
                b == self.n() + 1,
                d == self.n() * self.n(),
                base + d + 1 <= usize::MAX,
                forall|i: int|
                    0 <= i < self.stack().len() ==> self.level_at(#[trigger] self.stack()[i])
                        <= base + i + 1,
                !done ==> self.lvl() <= base + self.stack().len(),
                self.mu() <= pow(b, (d + 1) as nat),
                pow(b, (d + 2) as nat) >= pow(b, (d + 1) as nat) + 1,
                done ==> result == (self.det_count() == self.total_count()),
                done && !result ==> self.stack().len() == 0,
                !old(self).some_problem() && old(self).det_count() == old(self).total_count()
                    ==> *self == *old(self) && (done ==> result),
                old(self).some_problem() && old(self).stack().len() == 0 && old(self).det_count()
                    != old(self).total_count() ==> *self == *old(self) && (done ==> !result),
                self.lvl() >= gb,
                forall|i: int|
                    0 <= i < self.stack().len() ==> self.level_at(#[trigger] self.stack()[i]) > gb,
                forall|q: Coord|
                    old(self).in_b(q) && old(self).found_at(q) && old(self).level_at(q) <= gb
                        ==> (#[trigger] self.found_at(q)),
                forall|q: Coord|
                    old(self).in_b(q) && old(self).found_at(q) && old(self).level_at(q) <= gb
                        && (#[trigger] self.found_at(q)) ==> self.val_at(q) == old(self).val_at(q)
                        && self.level_at(q) == old(self).level_at(q),
                forall|q: Coord|
                    old(self).in_b(q) && #[trigger] self.found_at(q) ==> ((old(self).found_at(q)
                        && self.val_at(q) == old(self).val_at(q) && self.level_at(q) == old(
                        self,
                    ).level_at(q)) || self.level_at(q) >= gb),
            decreases (if done {
                0int
            } else {
                1int
            }), pow(b, (d + 2) as nat) - self.mu(),
        {
            let ghost sit = *self;
            let ok = self.full_solve_no_guessing();
            proof {
                assert forall|q: Coord|
                    old(self).in_b(q) && old(self).found_at(q) && old(self).level_at(q) <= gb
                    implies (#[trigger] self.found_at(q)) by {
                    assert(sit.found_at(q));
                }
                assert forall|q: Coord|
                    old(self).in_b(q) && old(self).found_at(q) && old(self).level_at(q) <= gb
                        && (#[trigger] self.found_at(q)) implies self.val_at(q) == old(
                    self,
                ).val_at(q) && self.level_at(q) == old(self).level_at(q) by {
                    assert(sit.found_at(q));
                    assert(sit.val_at(q) == old(self).val_at(q));
                    assert(sit.level_at(q) == old(self).level_at(q));
                    assert(self.val_at(q) == sit.val_at(q));
                    assert(self.level_at(q) == sit.level_at(q));
                }
                assert(self.stack() == sit.stack());
                assert forall|i: int|
                    0 <= i < self.stack().len() implies #[trigger] self.stack()[i]
                        == sit.stack()[i] && self.val_at(self.stack()[i]) == sit.val_at(
                    sit.stack()[i],
                ) && self.level_at(self.stack()[i]) == sit.level_at(sit.stack()[i]) by {
                    let q = sit.stack()[i];
                    assert(sit.in_b(q) && sit.found_at(q));
                }
                Self::lemma_mu_of_congr(sit, *self, self.stack().len() as int);
                assert(self.mu() == sit.mu());
            }
            let ghost s_mid = *self;
            if ok {
                proof {
                    assert forall|p: Coord|
                        self.in_b(p) && !(#[trigger] self.found_at(p)) implies count_true(
                        self.poss_at(p),
                    ) >= 1 by {
                        crate::node::lemma_count_true_bounds(
                            self.poss_at(p),
                            self.poss_at(p).len() as int,
                        );
                        if count_true(self.poss_at(p)) == 0 {
                            assert(self.some_problem()) by {
                                assert(self.in_b(p) && (if self.found_at(p) {
                                    self.confl_at(p).len() > 0
                                } else {
                                    count_true(self.poss_at(p)) == 0
                                }));
                            }
                        }
                    }
                    assert(self.lvl() < usize::MAX);
                }
                let g = self.guess();
                if !g {
                    result = self.finished.done();
                    done = true;
                    proof {
                        assert(self.mu() == s_mid.mu());
                        assert(*self == s_mid);
                    }
                } else {
                    proof {
                        assert(self.mu() >= s_mid.mu() + 1);
                        Self::lemma_mu_of_cap(*self, self.stack().len() as int);
                        lemma_pow_positive(b, (d + 1 - self.stack().len()) as nat);
                        assert forall|i: int|
                            0 <= i < self.stack().len() implies self.level_at(
                            #[trigger] self.stack()[i],
                        ) <= base + i + 1 by {
                            if i < self.stack().len() - 1 {
                                assert(self.stack()[i] == s_mid.stack()[i]);
                                assert(self.level_at(self.stack()[i]) == s_mid.level_at(
                                    s_mid.stack()[i],
                                ));
                            } else {
                                assert(self.level_at(self.stack().last()) == s_mid.lvl() + 1);
                            }
                        }
                        assert forall|q: Coord|
                            old(self).in_b(q) && old(self).found_at(q) && old(self).level_at(q)
                                <= gb implies (#[trigger] self.found_at(q)) by {
                            assert(sit.found_at(q));
                            assert(s_mid.found_at(q));
                        }
                        assert forall|q: Coord|
                            old(self).in_b(q) && old(self).found_at(q) && old(self).level_at(q)
                                <= gb && (#[trigger] self.found_at(q)) implies self.val_at(q)
                            == old(self).val_at(q) && self.level_at(q) == old(self).level_at(
                            q,
                        ) by {
                            assert(sit.found_at(q));
                            assert(sit.val_at(q) == old(self).val_at(q));
                            assert(sit.level_at(q) == old(self).level_at(q));
                            assert(s_mid.found_at(q));
                            assert(s_mid.val_at(q) == sit.val_at(q));
                            assert(s_mid.level_at(q) == sit.level_at(q));
                            assert(self.val_at(q) == s_mid.val_at(q));
                            assert(self.level_at(q) == s_mid.level_at(q));
                        }
                    }
                }
            } else {
                let rg = self.retry_guess(Ghost(gb));
                proof {
                    assert forall|q: Coord|
                        old(self).in_b(q) && old(self).found_at(q) && old(self).level_at(q) <= gb
                        implies (#[trigger] self.found_at(q)) by {
                        assert(sit.found_at(q));
                        assert(s_mid.found_at(q));
                        assert(s_mid.level_at(q) == old(self).level_at(q)) by {
                            assert(s_mid.val_at(q) == sit.val_at(q));
                            assert(s_mid.level_at(q) == sit.level_at(q));
                            assert(sit.level_at(q) == old(self).level_at(q));
                        }
                    }
                    assert forall|q: Coord|
                        old(self).in_b(q) && old(self).found_at(q) && old(self).level_at(q) <= gb
                            && (#[trigger] self.found_at(q)) implies self.val_at(q) == old(
                        self,
                    ).val_at(q) && self.level_at(q) == old(self).level_at(q) by {
                        assert(sit.found_at(q));
                        assert(sit.val_at(q) == old(self).val_at(q));
                        assert(sit.level_at(q) == old(self).level_at(q));
                        assert(s_mid.found_at(q));
                        assert(s_mid.val_at(q) == sit.val_at(q));
                        assert(s_mid.level_at(q) == sit.level_at(q));
                        assert(self.val_at(q) == s_mid.val_at(q));
                        assert(self.level_at(q) == s_mid.level_at(q));
                    }
                }
                if !rg {
                    result = self.finished.done();
                    done = true;
                    proof {
                        assert(self.stack().len() == 0);
                        assert(self.mu() == 0);
                        lemma_pow_positive(b, (d + 1) as nat);
                    }
                } else {
                    proof {
                        assert(self.mu() >= s_mid.mu() + 1);
                        Self::lemma_mu_of_cap(*self, self.stack().len() as int);
                        lemma_pow_positive(b, (d + 1 - self.stack().len()) as nat);
                        let m = self.stack().len() - 1;
                        assert forall|i: int|
                            0 <= i < self.stack().len() implies self.level_at(
                            #[trigger] self.stack()[i],
                        ) <= base + i + 1 by {
                            if i < m {
                                assert(self.stack()[i] == s_mid.stack()[i]);
                                assert(self.level_at(self.stack()[i]) == s_mid.level_at(
                                    s_mid.stack()[i],
                                ));
                            } else {
                                assert(i == m);
                                assert(self.level_at(self.stack().last()) == s_mid.level_at(
                                    s_mid.stack()[m],
                                ));
                            }
                        }
                        assert(self.lvl() == self.level_at(self.stack().last()));
                        assert(self.lvl() <= base + self.stack().len());
                    }
                }
            }
        }
        proof {
            if old(self).stack().len() == 0 {
                assert forall|q: Coord|
                    old(self).in_b(q) && old(self).found_at(q) implies (#[trigger] self.found_at(
                    q,
                )) by {
                    assert(old(self).node_ok(q));
                    assert(old(self).level_at(q) <= gb);
                }
                assert forall|q: Coord|
                    old(self).in_b(q) && old(self).found_at(q) implies (#[trigger] self.val_at(q))
                    == old(self).val_at(q) && self.level_at(q) == old(self).level_at(q) by {
                    assert(old(self).node_ok(q));
                    assert(old(self).level_at(q) <= gb);
                    assert(self.found_at(q));
                }
            }
            if result {
                let size = self.n();
                lemma_all_seq(size);
                lemma_count_found_full(self.nodes@, size, all_seq(size));
                assert forall|p: Coord| self.in_b(p) implies #[trigger] self.found_at(p) by {
                    lemma_flat_bound(size, p);
                    assert(all_seq(size)[flat_of(size, p)] == p);
                }
            }
            if old(self).stack().len() == 0 && result && !self.some_problem() {
                Self::lemma_no_problem_no_equal_pair(*self);
                let sol = |p: Coord| self.val_at(p);
                assert(old(self).solution_of(sol)) by {
                    assert forall|p: Coord| old(self).in_b(p) implies (#[trigger] sol(p)) < old(
                        self,
                    ).n() by {
                        assert(self.found_at(p));
                        assert(self.node_ok(p));
                    }
                    assert forall|a: Coord, b: Coord|
                        old(self).in_b(a) && old(self).in_b(b) && #[trigger] old(self).same_u(
                            a,
                            b,
                        ) implies sol(a) != sol(b) by {
                        assert(self.same_u(a, b) == old(self).same_u(a, b));
                        assert(self.found_at(a) && self.found_at(b));
                        assert(self.val_at(a) != self.val_at(b));
                    }
                    assert forall|p: Coord|
                        old(self).in_b(p) && #[trigger] old(self).found_at(p) implies sol(p)
                        == old(self).val_at(p) by {
                        assert(self.found_at(p));
                        assert(self.val_at(p) == old(self).val_at(p));
                    }
                }
                assert(old(self).solvable());
            }
        }
        result
    }

    /// Probes whether the puzzle can still be completed: raises the guess
    /// level, runs the full search speculatively, then rolls the guess level
    /// back to where it stood, undoing the speculative work. Started with no
    /// recorded guesses, the probe restores every cell, counter and the
    /// level exactly.
    #[verifier::spinoff_prover]
    pub fn check_if_possible(&mut self) -> (r: bool)
        requires
            old(self).inv(),
            old(self).lvl() + old(self).n() * old(self).n() + 2 <= usize::MAX,
        ensures
            final(self).inv(),
            final(self).n() == old(self).n(),
            final(self).shape_s() == old(self).shape_s(),
            final(self).total_count() == old(self).total_count(),
            final(self).lvl() <= old(self).lvl(),
            !old(self).some_problem() && old(self).det_count() == old(self).total_count() ==> r
                == true,
            old(self).stack().len() == 0 && old(self).some_problem() && old(self).det_count()
                != old(self).total_count() ==> r == false,
            old(self).stack().len() == 0 ==> final(self).lvl() == old(self).lvl(),
            old(self).stack().len() == 0 ==> (forall|q: Coord|
                old(self).in_b(q) ==> (#[trigger] final(self).found_at(q)) == old(self).found_at(
                    q,
                )),
            old(self).stack().len() == 0 ==> (forall|q: Coord|
                old(self).in_b(q) && old(self).found_at(q) && (#[trigger] final(self).found_at(q))
                    ==> final(self).val_at(q) == old(self).val_at(q) && final(self).level_at(q)
                    == old(self).level_at(q)),
            old(self).stack().len() == 0 ==> (forall|q: Coord, v: int|
                #![trigger final(self).poss_at(q)[v]]
                old(self).in_b(q) && !old(self).found_at(q) && 0 <= v < old(self).n() ==> (final(self).poss_at(q)[v] <==> old(self).poss_at(q)[v])),
            old(self).stack().len() == 0 ==> final(self).det_count() == old(self).det_count(),
            old(self).stack().len() == 0 ==> final(self).stack().len() == 0,
    {
        let ghost cond = old(self).stack().len() == 0;
        let ghost snap = old(self).lvl() as int;
        let snapshot = self.guess_level;
        self.inc_guess();
        let ghost s_inc = *self;
        let result = self.full_solve();
        proof {
            assert(s_inc.some_problem() == old(self).some_problem()) by {
                if old(self).some_problem() {
                    let w = choose|w: Coord|
                        #[trigger] old(self).in_b(w) && (if old(self).found_at(w) {
                            old(self).confl_at(w).len() > 0
                        } else {
                            count_true(old(self).poss_at(w)) == 0
                        });
                    assert(s_inc.node(w) == old(self).node(w));
                    assert(s_inc.in_b(w) && (if s_inc.found_at(w) {
                        s_inc.confl_at(w).len() > 0
                    } else {
                        count_true(s_inc.poss_at(w)) == 0
                    }));
                }
                if s_inc.some_problem() {
                    let w = choose|w: Coord|
                        #[trigger] s_inc.in_b(w) && (if s_inc.found_at(w) {
                            s_inc.confl_at(w).len() > 0
                        } else {
                            count_true(s_inc.poss_at(w)) == 0
                        });
                    assert(s_inc.node(w) == old(self).node(w));
                    assert(old(self).in_b(w) && (if old(self).found_at(w) {
                        old(self).confl_at(w).len() > 0
                    } else {
                        count_true(old(self).poss_at(w)) == 0
                    }));
                }
            }
            if cond {
                assert(s_inc.stack().len() == 0);
                assert forall|q: Coord|
                    old(self).in_b(q) && old(self).found_at(q) implies (#[trigger] s_inc.found_at(
                    q,
                )) && s_inc.val_at(q) == old(self).val_at(q) && s_inc.level_at(q) == old(
                    self,
                ).level_at(q) by {
                    assert(s_inc.node(q) == old(self).node(q));
                }
                assert forall|q: Coord|
                    old(self).in_b(q) && !old(self).found_at(q) implies !(#[trigger] s_inc.found_at(
                    q,
                )) by {
                    assert(s_inc.node(q) == old(self).node(q));
                }
            }
        }
        while self.guess_level > snapshot
            invariant
                self.inv(),
                self.n() == old(self).n(),
                self.shape_s() == old(self).shape_s(),
                self.total_count() == old(self).total_count(),
                snapshot == snap,
                cond == (old(self).stack().len() == 0),
                cond ==> self.lvl() >= snap,
                cond ==> (forall|q: Coord|
                    old(self).in_b(q) && old(self).found_at(q) ==> (#[trigger] self.found_at(q))),
                cond ==> (forall|q: Coord|
                    old(self).in_b(q) && old(self).found_at(q) && (#[trigger] self.found_at(q))
                        ==> self.val_at(q) == old(self).val_at(q) && self.level_at(q) == old(
                        self,
                    ).level_at(q)),
                cond ==> (forall|q: Coord|
                    old(self).in_b(q) && !old(self).found_at(q) && (#[trigger] self.found_at(q))
                        ==> self.level_at(q) > snap),
                cond ==> (forall|i: int|
                    0 <= i < self.stack().len() ==> self.level_at(#[trigger] self.stack()[i])
                        > snap),
            decreases self.lvl(),
        {
            proof {
                assert(self.lvl() >= 1);
            }
            let ghost sd = *self;
            self.dec_guess();
            proof {
                if cond {
                    assert forall|q: Coord|
                        old(self).in_b(q) && old(self).found_at(q) implies (
                    #[trigger] self.found_at(q)) by {
                        assert(sd.found_at(q));
                        assert(sd.level_at(q) == old(self).level_at(q));
                        assert(old(self).node_ok(q));
                        assert(sd.level_at(q) < sd.lvl());
                    }
                    assert forall|i: int|
                        0 <= i < self.stack().len() implies self.level_at(
                        #[trigger] self.stack()[i],
                    ) > snap by {
                        let p = self.stack()[i];
                        assert(self.in_b(p) && self.found_at(p));
                        assert(self.stack().contains(p)) by {
                            assert(self.stack()[i] == p);
                        }
                        assert(sd.stack().contains(p));
                        let t = choose|t: int| 0 <= t < sd.stack().len() && sd.stack()[t] == p;
                        assert(sd.level_at(sd.stack()[t]) > snap);
                        assert(self.val_at(p) == sd.val_at(p) && self.level_at(p) == sd.level_at(
                            p,
                        ));
                    }
                }
            }
        }
        proof {
            if cond {
                assert(self.lvl() == snap);
                assert forall|q: Coord|
                    old(self).in_b(q) implies (#[trigger] self.found_at(q)) == old(self).found_at(
                    q,
                ) by {
                    if self.found_at(q) && !old(self).found_at(q) {
                        assert(self.level_at(q) > snap);
                        assert(self.node_ok(q));
                        assert(self.level_at(q) <= self.lvl());
                    }
                }
                assert(self.stack().len() == 0) by {
                    if self.stack().len() > 0 {
                        let p = self.stack()[0];
                        assert(self.level_at(self.stack()[0]) > snap);
                        assert(self.in_b(p) && self.found_at(p));
                        assert(self.node_ok(p));
                        assert(self.level_at(p) <= self.lvl());
                    }
                }
                assert(self.det_count() == old(self).det_count()) by {
                    let size = old(self).n();
                    lemma_all_seq(size);
                    assert forall|j: int|
                        0 <= j < all_seq(size).len() implies old(self).nodes@[flat_of(
                        size,
                        #[trigger] all_seq(size)[j],
                    )].found() == self.nodes@[flat_of(size, all_seq(size)[j])].found() by {
                        let q = all_seq(size)[j];
                        assert(old(self).found_at(q) == self.found_at(q));
                    }
                    lemma_count_found_congr(old(self).nodes@, self.nodes@, size, all_seq(size));
                }
                assert forall|q: Coord, v: int|
                    #![trigger self.poss_at(q)[v]]
                    old(self).in_b(q) && !old(self).found_at(q) && 0 <= v < old(self).n() implies (
                self.poss_at(q)[v] <==> old(self).poss_at(q)[v]) by {
                    assert(!self.found_at(q));
                    assert(old(self).poss_at(q)[v] <==> !old(self).blocked(q, v));
                    assert(self.poss_at(q)[v] <==> !self.blocked(q, v));
                    assert(Self::same_grid_found(*old(self), *self)) by {
                        assert forall|q2: Coord|
                            old(self).in_b(q2) implies (#[trigger] old(self).found_at(q2))
                            == self.found_at(q2) && (old(self).found_at(q2) ==> old(self).val_at(
                            q2,
                        ) == self.val_at(q2)) by {
                            assert(old(self).found_at(q2) == self.found_at(q2));
                            if old(self).found_at(q2) {
                                assert(self.found_at(q2));
                            }
                        }
                    }
                    Self::lemma_blocked_congr(*old(self), *self, q, v);
                }
            }
        }
        result
    }

    /// Conflict records are symmetric: a cell records a conflict with
    /// another exactly when that one records a conflict with it.
    pub proof fn lemma_conflict_symmetry(s: State, a: Coord, b: Coord)
        requires
            s.inv(),
            s.in_b(a),
            s.in_b(b),
        ensures
            s.has_confl(a, b) <==> s.has_confl(b, a),
    {
        assert(s.has_confl(a, b) <==> s.conflicting(a, b));
        assert(s.has_confl(b, a) <==> s.conflicting(b, a));
        assert(s.conflicting(a, b) == s.conflicting(b, a));
    }

    /// What one global propagation pass does: the grid's shape, the
    /// determined cells and the bookkeeping stay as they are, and every open
    /// cell's candidate flags are re-derived from the determined cells.
    pub closed spec fn propagate_rel(pre: State, post: State) -> bool {
        &&& post.n() == pre.n()
        &&& post.shape_s() == pre.shape_s()
        &&& (forall|p: Coord|
            pre.in_b(p) && pre.found_at(p) ==> #[trigger] post.node(p) == pre.node(p))
        &&& (forall|p: Coord|
            pre.in_b(p) && !pre.found_at(p) ==> !(#[trigger] post.found_at(p)) && post.poss_at(
                p,
            ).len() == pre.n())
        &&& (forall|p: Coord, v: int|
            #![trigger post.poss_at(p)[v]]
            pre.in_b(p) && !pre.found_at(p) && 0 <= v < pre.n() ==> (post.poss_at(p)[v]
                <==> !pre.blocked(p, v)))
    }

    /// A global propagation pass is idempotent: with no assignment or clear
    /// in between, a second pass reproduces exactly the candidate flags the
    /// first pass computed.
    pub proof fn lemma_propagation_idempotent(s0: State, s1: State, s2: State)
        requires
            Self::propagate_rel(s0, s1),
            Self::propagate_rel(s1, s2),
        ensures
            forall|p: Coord|
                s0.in_b(p) && s1.found_at(p) ==> #[trigger] s2.node(p) == s1.node(p),
            forall|p: Coord|
                s0.in_b(p) && !s1.found_at(p) ==> !(#[trigger] s2.found_at(p)) && s2.poss_at(
                    p,
                ).len() == s1.poss_at(p).len() && (forall|v: int|
                    0 <= v < s1.poss_at(p).len() ==> #[trigger] s2.poss_at(p)[v] == s1.poss_at(
                        p,
                    )[v]),
    {
        assert(Self::same_grid_found(s0, s1)) by {
            assert forall|q: Coord| s0.in_b(q) implies (#[trigger] s0.found_at(q)) == s1.found_at(
                q,
            ) && (s0.found_at(q) ==> s0.val_at(q) == s1.val_at(q)) by {
                if s0.found_at(q) {
                    assert(s1.node(q) == s0.node(q));
                }
            }
        }
        assert forall|p: Coord|
            s0.in_b(p) && s1.found_at(p) implies #[trigger] s2.node(p) == s1.node(p) by {
            assert(s0.found_at(p));
            assert(s1.node(p) == s0.node(p));
        }
        assert forall|p: Coord|
            s0.in_b(p) && !s1.found_at(p) implies !(#[trigger] s2.found_at(p)) && s2.poss_at(
            p,
        ).len() == s1.poss_at(p).len() && (forall|v: int|
            0 <= v < s1.poss_at(p).len() ==> #[trigger] s2.poss_at(p)[v] == s1.poss_at(p)[v]) by {
            assert(!s0.found_at(p));
            assert(!s1.found_at(p));
            assert(!s2.found_at(p));
            assert(s1.poss_at(p).len() == s0.n() && s2.poss_at(p).len() == s1.n());
            assert forall|v: int|
                0 <= v < s1.poss_at(p).len() implies #[trigger] s2.poss_at(p)[v] == s1.poss_at(
                p,
            )[v] by {
                Self::lemma_blocked_congr(s0, s1, p, v);
                assert(s1.poss_at(p)[v] <==> !s0.blocked(p, v));
                assert(s2.poss_at(p)[v] <==> !s1.blocked(p, v));
            }
        }
    }

    /// Determining a cell on an all-open grid and then clearing it restores
    /// every cell's candidate flags and leaves no conflict record anywhere:
    /// the grid returns to all-open with every candidate available again.
    pub proof fn lemma_assign_clear_round_trip(
        pre: State,
        mid: State,
        post: State,
        pos: Coord,
        v: usize,
    )
        requires
            pre.inv(),
            forall|p: Coord| pre.in_b(p) ==> !(#[trigger] pre.found_at(p)),
            pre.in_b(pos),
            v < pre.n(),
            Self::set_result(pre, mid, pos, v),
            Self::clear_result(mid, post, pos),
        ensures
            forall|p: Coord| pre.in_b(p) ==> !(#[trigger] post.found_at(p)),
            forall|p: Coord|
                pre.in_b(p) ==> #[trigger] post.poss_at(p).len() == pre.poss_at(p).len() && (
                forall|w: int|
                    0 <= w < pre.poss_at(p).len() ==> #[trigger] post.poss_at(p)[w] == pre.poss_at(
                        p,
                    )[w]),
            post.stack().len() == 0,
            post.det_count() == pre.det_count(),
            post.lvl() == pre.lvl(),
    {
        assert forall|p: Coord| pre.in_b(p) implies !(#[trigger] post.found_at(p)) by {
            if p != pos {
                assert(mid.found_at(p) == pre.found_at(p));
                assert(post.found_at(p) == mid.found_at(p));
            }
        }
        assert forall|p: Coord|
            pre.in_b(p) implies #[trigger] post.poss_at(p).len() == pre.poss_at(p).len() && (
        forall|w: int|
            0 <= w < pre.poss_at(p).len() ==> #[trigger] post.poss_at(p)[w] == pre.poss_at(
                p,
            )[w]) by {
            assert(pre.node_ok(p) && post.node_ok(p));
            assert(pre.poss_at(p).len() == pre.n() && post.poss_at(p).len() == post.n());
            assert forall|w: int|
                0 <= w < pre.poss_at(p).len() implies #[trigger] post.poss_at(p)[w]
                == pre.poss_at(p)[w] by {
                assert(pre.poss_at(p)[w] <==> !pre.blocked(p, w));
                assert(post.poss_at(p)[w] <==> !post.blocked(p, w));
                assert(!pre.blocked(p, w)) by {
                    if pre.blocked(p, w) {
                        let q = choose|q: Coord|
                            {
                                &&& #[trigger] pre.same_u(p, q)
                                &&& pre.in_b(q)
                                &&& pre.found_at(q)
                                &&& pre.val_at(q) == w
                            };
                    }
                }
                assert(!post.blocked(p, w)) by {
                    if post.blocked(p, w) {
                        let q = choose|q: Coord|
                            {
                                &&& #[trigger] post.same_u(p, q)
                                &&& post.in_b(q)
                                &&& post.found_at(q)
                                &&& post.val_at(q) == w
                            };
                        assert(!post.found_at(q));
                    }
                }
            }
        }
        assert(post.stack().len() == 0) by {
            assert(pre.stack().len() == 0) by {
                if pre.stack().len() > 0 {
                    assert(pre.in_b(pre.stack()[0]) && pre.found_at(pre.stack()[0]));
                }
            }
            if post.stack().len() > 0 {
                let p0 = post.stack()[0];
                assert(post.stack().contains(p0)) by {
                    assert(post.stack()[0] == p0);
                }
                assert(mid.stack().contains(p0));
                assert(mid.stack().len() == 0) by {
                    assert(!(pre.found_at(pos) && pre.gid_at(pos) is Some));
                    assert(mid.stack() == pre.stack());
                }
            }
        }
    }

    /// The side of the grid.
    pub fn size(&self) -> (r: usize)
        ensures
            r == self.n(),
    {
        self.size
    }

    /// The flat cell array, row-major.
    pub fn nodes(&self) -> (r: &Vec<Node>)
        ensures
            r@ == self.nodes_s(),
    {
        &self.nodes
    }

    /// The cell at `pos`.
    pub fn node_at(&self, pos: Coord) -> (r: &Node)
        requires
            self.wf(),
            self.in_b(pos),
        ensures
            *r == self.node(pos),
    {
        let i = flat_ix(self.size, pos);
        &self.nodes[i]
    }

    /// The current guess level.
    pub fn guess_level(&self) -> (r: usize)
        ensures
            r == self.lvl(),
    {
        self.guess_level
    }

    /// How many cells are determined.
    pub fn finished(&self) -> (r: usize)
        ensures
            r == self.det_count(),
    {
        self.finished.get_current()
    }

    /// How many cells the grid holds.
    pub fn total(&self) -> (r: usize)
        ensures
            r == self.total_count(),
    {
        self.finished.get_total()
    }
}

} // verus!
