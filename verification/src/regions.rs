//! Regions — rows, columns and blocks — as position sequences, and counts of
//! determined cells over them.
//!
//! A grid of side `size` has `3 * size` regions: rows `0..size`, columns
//! `size..2*size` and blocks `2*size..3*size`, each holding exactly `size`
//! positions.

use crate::coord::{
    block_col, block_of, block_row, flat_of, in_grid, lemma_flat_bound, lemma_flat_injective,
    pos_of, Coord,
};
use crate::node::Node;
use vstd::arithmetic::div_mod::{
    lemma_div_pos_is_pos, lemma_fundamental_div_mod, lemma_fundamental_div_mod_converse,
    lemma_mod_bound, lemma_multiply_divide_lt,
};
use vstd::arithmetic::mul::lemma_mul_is_commutative;
use vstd::prelude::*;

verus! {

/// The positions of row `y`, left to right.
pub open spec fn row_seq(size: usize, y: usize) -> Seq<Coord> {
    Seq::new(size as nat, |k: int| Coord { x: k as usize, y })
}

/// The positions of column `x`, top to bottom.
pub open spec fn col_seq(size: usize, x: usize) -> Seq<Coord> {
    Seq::new(size as nat, |k: int| Coord { x, y: k as usize })
}

/// The positions of the block with flat block index `b`, row-major within
/// the block.
pub open spec fn block_seq(size: usize, shape: Coord, b: usize) -> Seq<Coord> {
    Seq::new(
        size as nat,
        |k: int|
            Coord {
                x: ((b as int % shape.y as int) * shape.x + k % shape.x as int) as usize,
                y: ((b as int / shape.y as int) * shape.y + k / shape.x as int) as usize,
            },
    )
}

/// Every position of the grid, in row-major order.
pub open spec fn all_seq(size: usize) -> Seq<Coord> {
    Seq::new((size * size) as nat, |i: int| pos_of(size, i))
}

/// Region `r` of the grid: a row, a column or a block.
pub open spec fn region_seq(size: usize, shape: Coord, r: usize) -> Seq<Coord> {
    if r < size {
        row_seq(size, r)
    } else if r < 2 * size {
        col_seq(size, (r - size) as usize)
    } else {
        block_seq(size, shape, (r - 2 * size) as usize)
    }
}

/// Executable lookup of position `k` of region `r`.
pub fn region_pos(size: usize, shape: Coord, r: usize, k: usize) -> (p: Coord)
    requires
        shape.x >= 1,
        shape.y >= 1,
        size == shape.x * shape.y,
        size * size <= usize::MAX,
        r < 3 * size,
        k < size,
    ensures
        p == region_seq(size, shape, r)[k as int],
        in_grid(size, p),
{
    proof {
        assert(3 * size <= usize::MAX && size <= usize::MAX) by (nonlinear_arith)
            requires
                size >= 1,
                size * size <= usize::MAX,
        ;
    }
    if r < size {
        proof {
            lemma_row_seq(size, r);
        }
        Coord { x: k, y: r }
    } else if r < 2 * size {
        proof {
            lemma_col_seq(size, (r - size) as usize);
        }
        Coord { x: r - size, y: k }
    } else {
        let b = r - 2 * size;
        proof {
            lemma_block_seq(size, shape, b);
            let sx = shape.x as int;
            let sy = shape.y as int;
            lemma_mod_bound(b as int, sy);
            lemma_mod_bound(k as int, sx);
            assert(b < size && (b as int) < sy * sx) by {
                lemma_mul_is_commutative(sx, sy);
            }
            lemma_multiply_divide_lt(b as int, sy, sx);
            lemma_multiply_divide_lt(k as int, sx, sy);
            lemma_div_pos_is_pos(b as int, sy);
            lemma_div_pos_is_pos(k as int, sx);
            assert((b as int % sy) * sx + k as int % sx < sy * sx && (b as int / sy) * sy + k as int
                / sx < sx * sy) by (nonlinear_arith)
                requires
                    0 <= b as int % sy < sy,
                    0 <= k as int % sx < sx,
                    0 <= b as int / sy < sx,
                    0 <= k as int / sx < sy,
            ;
            lemma_mul_is_commutative(sx, sy);
        }
        Coord { x: (b % shape.y) * shape.x + k % shape.x, y: (b / shape.y) * shape.y + k / shape.x }
    }
}

/// Row `y` holds exactly the in-grid positions with that row index, each
/// once.
pub proof fn lemma_row_seq(size: usize, y: usize)
    requires
        y < size,
    ensures
        row_seq(size, y).len() == size,
        forall|k: int|
            0 <= k < size ==> #[trigger] row_seq(size, y)[k] == (Coord { x: k as usize, y })
                && in_grid(size, row_seq(size, y)[k]),
        forall|p: Coord|
            in_grid(size, p) && p.y == y ==> row_seq(size, y)[p.x as int] == p,
{
}

/// Column `x` holds exactly the in-grid positions with that column index,
/// each once.
pub proof fn lemma_col_seq(size: usize, x: usize)
    requires
        x < size,
    ensures
        col_seq(size, x).len() == size,
        forall|k: int|
            0 <= k < size ==> #[trigger] col_seq(size, x)[k] == (Coord { x, y: k as usize })
                && in_grid(size, col_seq(size, x)[k]),
        forall|p: Coord|
            in_grid(size, p) && p.x == x ==> col_seq(size, x)[p.y as int] == p,
{
}

/// Block `b` holds exactly the in-grid positions whose block index is `b`,
/// each once.
pub proof fn lemma_block_seq(size: usize, shape: Coord, b: usize)
    requires
        shape.x >= 1,
        shape.y >= 1,
        size == shape.x * shape.y,
        b < size,
    ensures
        block_seq(size, shape, b).len() == size,
        forall|k: int|
            0 <= k < size ==> in_grid(size, #[trigger] block_seq(size, shape, b)[k])
                && block_of(shape, block_seq(size, shape, b)[k]) == b,
        forall|k1: int, k2: int|
            0 <= k1 < size && 0 <= k2 < size && k1 != k2 ==> #[trigger] block_seq(
                size,
                shape,
                b,
            )[k1] != #[trigger] block_seq(size, shape, b)[k2],
        forall|p: Coord|
            in_grid(size, p) && block_of(shape, p) == b ==> exists|k: int|
                0 <= k < size && #[trigger] block_seq(size, shape, b)[k] == p,
{
    let sx = shape.x as int;
    let sy = shape.y as int;
    let bcol = b as int % sy;
    let brow = b as int / sy;
    lemma_mod_bound(b as int, sy);
    lemma_mul_is_commutative(sx, sy);
    assert(brow < sx) by {
        lemma_multiply_divide_lt(b as int, sy, sx);
    }
    assert forall|k: int| 0 <= k < size implies in_grid(
        size,
        #[trigger] block_seq(size, shape, b)[k],
    ) && block_of(shape, block_seq(size, shape, b)[k]) == b by {
        let dx = k % sx;
        let dy = k / sx;
        lemma_mod_bound(k, sx);
        lemma_multiply_divide_lt(k, sx, sy);
        let p = block_seq(size, shape, b)[k];
        assert(p.x as int == bcol * sx + dx && p.y as int == brow * sy + dy) by {
            assert(bcol * sx + dx < sy * sx && brow * sy + dy < sx * sy) by (nonlinear_arith)
                requires
                    0 <= dx < sx,
                    0 <= dy < sy,
                    0 <= bcol < sy,
                    0 <= brow < sx,
            ;
        }
        assert(in_grid(size, p)) by (nonlinear_arith)
            requires
                p.x as int == bcol * sx + dx,
                p.y as int == brow * sy + dy,
                0 <= dx < sx,
                0 <= dy < sy,
                0 <= bcol < sy,
                0 <= brow < sx,
                size == sx * sy,
        ;
        lemma_fundamental_div_mod_converse(p.x as int, sx, bcol, dx);
        lemma_fundamental_div_mod_converse(p.y as int, sy, brow, dy);
        assert(block_col(shape, p) == bcol && block_row(shape, p) == brow) by {
            lemma_mul_is_commutative(bcol, sx);
            lemma_mul_is_commutative(brow, sy);
        }
        lemma_fundamental_div_mod(b as int, sy);
        lemma_mul_is_commutative(brow, sy);
    }
    assert forall|k1: int, k2: int|
        0 <= k1 < size && 0 <= k2 < size && k1 != k2 implies #[trigger] block_seq(
        size,
        shape,
        b,
    )[k1] != #[trigger] block_seq(size, shape, b)[k2] by {
        lemma_mod_bound(k1, sx);
        lemma_mod_bound(k2, sx);
        lemma_multiply_divide_lt(k1, sx, sy);
        lemma_multiply_divide_lt(k2, sx, sy);
        vstd::arithmetic::div_mod::lemma_div_pos_is_pos(k1, sx);
        vstd::arithmetic::div_mod::lemma_div_pos_is_pos(k2, sx);
        if block_seq(size, shape, b)[k1] == block_seq(size, shape, b)[k2] {
            assert(bcol * sx + k1 % sx < sy * sx && bcol * sx + k2 % sx < sy * sx && brow * sy
                + k1 / sx < sx * sy && brow * sy + k2 / sx < sx * sy) by (nonlinear_arith)
                requires
                    0 <= k1 % sx < sx,
                    0 <= k2 % sx < sx,
                    0 <= k1 / sx < sy,
                    0 <= k2 / sx < sy,
                    0 <= bcol < sy,
                    0 <= brow < sx,
            ;
            assert(k1 % sx == k2 % sx && k1 / sx == k2 / sx);
            lemma_fundamental_div_mod(k1, sx);
            lemma_fundamental_div_mod(k2, sx);
        }
    }
    assert forall|p: Coord| in_grid(size, p) && block_of(shape, p) == b implies exists|k: int|
        0 <= k < size && #[trigger] block_seq(size, shape, b)[k] == p by {
        let dx = p.x as int % sx;
        let dy = p.y as int % sy;
        let pcol = p.x as int / sx;
        let prow = p.y as int / sy;
        lemma_mod_bound(p.x as int, sx);
        lemma_mod_bound(p.y as int, sy);
        lemma_fundamental_div_mod(p.x as int, sx);
        lemma_fundamental_div_mod(p.y as int, sy);
        assert(0 <= pcol) by {
            vstd::arithmetic::div_mod::lemma_div_pos_is_pos(p.x as int, sx);
        }
        assert(0 <= prow) by {
            vstd::arithmetic::div_mod::lemma_div_pos_is_pos(p.y as int, sy);
        }
        assert(pcol < sy) by {
            lemma_multiply_divide_lt(p.x as int, sx, sy);
        }
        lemma_fundamental_div_mod_converse(b as int, sy, prow, pcol);
        let k = dy * sx + dx;
        assert(0 <= dy * sx + dx < sx * sy) by (nonlinear_arith)
            requires
                0 <= dx < sx,
                0 <= dy < sy,
        ;
        lemma_fundamental_div_mod_converse(k, sx, dy, dx);
        let q = block_seq(size, shape, b)[k];
        assert(q.x as int == pcol * sx + dx && q.y as int == prow * sy + dy) by {
            assert(pcol * sx + dx < sy * sx && prow * sy + dy < sx * sy) by (nonlinear_arith)
                requires
                    0 <= dx < sx,
                    0 <= dy < sy,
                    0 <= pcol < sy,
                    0 <= prow < sx,
            ;
        }
        assert(q.x as int == p.x as int && q.y as int == p.y as int) by {
            lemma_mul_is_commutative(pcol, sx);
            lemma_mul_is_commutative(prow, sy);
        }
        assert(block_seq(size, shape, b)[k] == p);
    }
}

/// The grid sequence holds every in-grid position at its flat index.
pub proof fn lemma_all_seq(size: usize)
    requires
        size >= 1,
        size * size <= usize::MAX,
    ensures
        all_seq(size).len() == size * size,
        forall|i: int|
            0 <= i < size * size ==> in_grid(size, #[trigger] all_seq(size)[i]) && flat_of(
                size,
                all_seq(size)[i],
            ) == i,
        forall|p: Coord|
            in_grid(size, p) ==> all_seq(size)[flat_of(size, p)] == p,
{
    assert forall|i: int| 0 <= i < size * size implies in_grid(
        size,
        #[trigger] all_seq(size)[i],
    ) && flat_of(size, all_seq(size)[i]) == i by {
        crate::coord::lemma_pos_of_flat(size, i);
    }
    assert forall|p: Coord| in_grid(size, p) implies all_seq(size)[flat_of(size, p)] == p by {
        lemma_flat_bound(size, p);
        crate::coord::lemma_pos_of_flat(size, flat_of(size, p));
        lemma_flat_injective(size, all_seq(size)[flat_of(size, p)], p);
    }
}

/// How many of the cells at the positions `ps` are determined.
pub open spec fn count_found_in(nodes: Seq<Node>, size: usize, ps: Seq<Coord>) -> int
    decreases ps.len(),
{
    if ps.len() == 0 {
        0
    } else {
        count_found_in(nodes, size, ps.drop_last()) + if nodes[flat_of(
            size,
            ps.last(),
        )].found() {
            1int
        } else {
            0int
        }
    }
}

/// How many cells of the whole grid are determined.
pub open spec fn count_found_all(nodes: Seq<Node>, size: usize) -> int {
    count_found_in(nodes, size, all_seq(size))
}

pub proof fn lemma_count_found_bounds(nodes: Seq<Node>, size: usize, ps: Seq<Coord>)
    ensures
        0 <= count_found_in(nodes, size, ps) <= ps.len(),
    decreases ps.len(),
{
    if ps.len() > 0 {
        lemma_count_found_bounds(nodes, size, ps.drop_last());
    }
}

/// Counts agree between grids whose cells at the counted positions agree on
/// being determined.
pub proof fn lemma_count_found_congr(n1: Seq<Node>, n2: Seq<Node>, size: usize, ps: Seq<Coord>)
    requires
        forall|j: int|
            0 <= j < ps.len() ==> n1[flat_of(size, #[trigger] ps[j])].found() == n2[flat_of(
                size,
                ps[j],
            )].found(),
    ensures
        count_found_in(n1, size, ps) == count_found_in(n2, size, ps),
    decreases ps.len(),
{
    if ps.len() > 0 {
        lemma_count_found_congr(n1, n2, size, ps.drop_last());
    }
}

/// When only the cell at `p` may have changed its determined-ness, a count
/// changes exactly by that cell's change, and only if `p` is counted.
pub proof fn lemma_count_found_update(
    n1: Seq<Node>,
    n2: Seq<Node>,
    size: usize,
    ps: Seq<Coord>,
    p: Coord,
)
    requires
        in_grid(size, p),
        forall|j: int| 0 <= j < ps.len() ==> in_grid(size, #[trigger] ps[j]),
        forall|j1: int, j2: int|
            0 <= j1 < ps.len() && 0 <= j2 < ps.len() && j1 != j2 ==> #[trigger] ps[j1]
                != #[trigger] ps[j2],
        forall|q: Coord|
            in_grid(size, q) && q != p ==> n1[flat_of(size, q)].found() == n2[#[trigger] flat_of(
                size,
                q,
            )].found(),
    ensures
        count_found_in(n2, size, ps) == count_found_in(n1, size, ps) + if ps.contains(p) {
            (if n2[flat_of(size, p)].found() {
                1int
            } else {
                0int
            }) - (if n1[flat_of(size, p)].found() {
                1int
            } else {
                0int
            })
        } else {
            0int
        },
    decreases ps.len(),
{
    if ps.len() == 0 {
        assert(!ps.contains(p));
    } else {
        let rest = ps.drop_last();
        assert(forall|j: int| 0 <= j < rest.len() ==> rest[j] == ps[j]);
        lemma_count_found_update(n1, n2, size, rest, p);
        if ps.last() == p {
            assert(!rest.contains(p)) by {
                if rest.contains(p) {
                    let j = choose|j: int| 0 <= j < rest.len() && rest[j] == p;
                    assert(ps[j] == p && ps[ps.len() - 1] == p);
                }
            }
            assert(ps.contains(p)) by {
                assert(ps[ps.len() - 1] == p);
            }
        } else {
            assert(ps.contains(p) == rest.contains(p)) by {
                if ps.contains(p) {
                    let j = choose|j: int| 0 <= j < ps.len() && ps[j] == p;
                    assert(rest[j] == p);
                }
                if rest.contains(p) {
                    let j = choose|j: int| 0 <= j < rest.len() && rest[j] == p;
                    assert(ps[j] == p);
                }
            }
            assert(n1[flat_of(size, ps.last())].found() == n2[flat_of(size, ps.last())].found());
        }
    }
}

/// A full count means every counted cell is determined.
pub proof fn lemma_count_found_full(nodes: Seq<Node>, size: usize, ps: Seq<Coord>)
    requires
        count_found_in(nodes, size, ps) == ps.len(),
    ensures
        forall|j: int| 0 <= j < ps.len() ==> nodes[flat_of(size, #[trigger] ps[j])].found(),
    decreases ps.len(),
{
    if ps.len() > 0 {
        lemma_count_found_bounds(nodes, size, ps.drop_last());
        lemma_count_found_full(nodes, size, ps.drop_last());
        assert(forall|j: int| 0 <= j < ps.len() - 1 ==> ps.drop_last()[j] == ps[j]);
        assert(ps[ps.len() - 1] == ps.last());
    }
}

/// A determined counted cell makes the count positive.
pub proof fn lemma_count_found_present(nodes: Seq<Node>, size: usize, ps: Seq<Coord>, j: int)
    requires
        0 <= j < ps.len(),
        nodes[flat_of(size, ps[j])].found(),
    ensures
        count_found_in(nodes, size, ps) >= 1,
    decreases ps.len(),
{
    lemma_count_found_bounds(nodes, size, ps.drop_last());
    if j < ps.len() - 1 {
        assert(ps.drop_last()[j] == ps[j]);
        lemma_count_found_present(nodes, size, ps.drop_last(), j);
    }
}

/// Removing one element of a duplicate-free sequence takes away exactly that
/// element.
pub proof fn lemma_remove_nodup(s: Seq<Coord>, j: int)
    requires
        0 <= j < s.len(),
        forall|j1: int, j2: int|
            0 <= j1 < s.len() && 0 <= j2 < s.len() && j1 != j2 ==> s[j1] != s[j2],
    ensures
        s.remove(j).len() == s.len() - 1,
        forall|c: Coord| s.remove(j).contains(c) <==> (s.contains(c) && c != s[j]),
        forall|j1: int, j2: int|
            0 <= j1 < s.remove(j).len() && 0 <= j2 < s.remove(j).len() && j1 != j2 ==> s.remove(
                j,
            )[j1] != s.remove(j)[j2],
{
    let r = s.remove(j);
    assert forall|c: Coord| r.contains(c) implies (s.contains(c) && c != s[j]) by {
        let k = choose|k: int| 0 <= k < r.len() && r[k] == c;
        if k < j {
            assert(s[k] == c);
        } else {
            assert(s[k + 1] == c);
        }
    }
    assert forall|c: Coord| s.contains(c) && c != s[j] implies r.contains(c) by {
        let k = choose|k: int| 0 <= k < s.len() && s[k] == c;
        if k < j {
            assert(r[k] == c);
        } else {
            assert(k > j);
            assert(r[k - 1] == c);
        }
    }
}

/// A count where every counted cell is determined is the full length.
pub proof fn lemma_count_found_complete(nodes: Seq<Node>, size: usize, ps: Seq<Coord>)
    requires
        forall|j: int| 0 <= j < ps.len() ==> nodes[flat_of(size, #[trigger] ps[j])].found(),
    ensures
        count_found_in(nodes, size, ps) == ps.len(),
    decreases ps.len(),
{
    if ps.len() > 0 {
        assert(forall|j: int| 0 <= j < ps.len() - 1 ==> ps.drop_last()[j] == ps[j]);
        lemma_count_found_complete(nodes, size, ps.drop_last());
        assert(ps[ps.len() - 1] == ps.last());
    }
}

/// A count splits off any one counted position.
pub proof fn lemma_count_found_remove(nodes: Seq<Node>, size: usize, ps: Seq<Coord>, k: int)
    requires
        0 <= k < ps.len(),
    ensures
        count_found_in(nodes, size, ps) == count_found_in(nodes, size, ps.remove(k)) + if nodes[
            flat_of(size, ps[k])
        ].found() {
            1int
        } else {
            0int
        },
    decreases ps.len(),
{
    if k == ps.len() - 1 {
        assert(ps.remove(k) =~= ps.drop_last());
    } else {
        assert(ps.remove(k).drop_last() =~= ps.drop_last().remove(k));
        assert(ps.remove(k).last() == ps.last());
        lemma_count_found_remove(nodes, size, ps.drop_last(), k);
        assert(ps.drop_last()[k] == ps[k]);
    }
}

/// A duplicate-free selection counts no more than any duplicate-free
/// sequence that contains it.
pub proof fn lemma_count_found_subset(nodes: Seq<Node>, size: usize, ps: Seq<Coord>, qs: Seq<Coord>)
    requires
        forall|j1: int, j2: int|
            0 <= j1 < ps.len() && 0 <= j2 < ps.len() && j1 != j2 ==> ps[j1] != ps[j2],
        forall|j1: int, j2: int|
            0 <= j1 < qs.len() && 0 <= j2 < qs.len() && j1 != j2 ==> qs[j1] != qs[j2],
        forall|j: int| 0 <= j < ps.len() ==> qs.contains(#[trigger] ps[j]),
    ensures
        count_found_in(nodes, size, ps) <= count_found_in(nodes, size, qs),
    decreases ps.len(),
{
    lemma_count_found_bounds(nodes, size, qs);
    if ps.len() > 0 {
        let p = ps.last();
        assert(qs.contains(p)) by {
            assert(ps[ps.len() - 1] == p);
        }
        let k = choose|k: int| 0 <= k < qs.len() && qs[k] == p;
        lemma_count_found_remove(nodes, size, qs, k);
        lemma_remove_nodup(qs, k);
        let rest = ps.drop_last();
        assert(forall|j: int| 0 <= j < rest.len() ==> rest[j] == ps[j]);
        assert forall|j: int| 0 <= j < rest.len() implies qs.remove(k).contains(
            #[trigger] rest[j],
        ) by {
            assert(qs.contains(ps[j]));
            assert(ps[j] != p);
        }
        lemma_count_found_subset(nodes, size, rest, qs.remove(k));
        assert(count_found_in(nodes, size, ps) == count_found_in(nodes, size, rest) + if nodes[
            flat_of(size, p)
        ].found() {
            1int
        } else {
            0int
        });
    }
}

/// Appending a fresh element to a duplicate-free sequence adds exactly that
/// element.
pub proof fn lemma_push_nodup(s: Seq<Coord>, e: Coord)
    requires
        forall|j1: int, j2: int|
            0 <= j1 < s.len() && 0 <= j2 < s.len() && j1 != j2 ==> s[j1] != s[j2],
        !s.contains(e),
    ensures
        forall|c: Coord| s.push(e).contains(c) <==> (s.contains(c) || c == e),
        forall|j1: int, j2: int|
            0 <= j1 < s.push(e).len() && 0 <= j2 < s.push(e).len() && j1 != j2 ==> s.push(e)[j1]
                != s.push(e)[j2],
{
    let r = s.push(e);
    assert forall|c: Coord| r.contains(c) implies (s.contains(c) || c == e) by {
        let k = choose|k: int| 0 <= k < r.len() && r[k] == c;
        if k < s.len() {
            assert(s[k] == c);
        }
    }
    assert forall|c: Coord| s.contains(c) || c == e implies r.contains(c) by {
        if s.contains(c) {
            let k = choose|k: int| 0 <= k < s.len() && s[k] == c;
            assert(r[k] == c);
        } else {
            assert(r[s.len() as int] == c);
        }
    }
    assert forall|j1: int, j2: int|
        0 <= j1 < r.len() && 0 <= j2 < r.len() && j1 != j2 implies r[j1] != r[j2] by {
        if j1 < s.len() && j2 < s.len() {
        } else if j1 < s.len() {
            assert(s.contains(s[j1]));
        } else if j2 < s.len() {
            assert(s.contains(s[j2]));
        }
    }
}

/// Nothing is counted where no counted cell is determined.
pub proof fn lemma_count_found_none(nodes: Seq<Node>, size: usize, ps: Seq<Coord>)
    requires
        forall|j: int| 0 <= j < ps.len() ==> !nodes[flat_of(size, #[trigger] ps[j])].found(),
    ensures
        count_found_in(nodes, size, ps) == 0,
    decreases ps.len(),
{
    if ps.len() > 0 {
        assert(forall|j: int| 0 <= j < ps.len() - 1 ==> ps.drop_last()[j] == ps[j]);
        lemma_count_found_none(nodes, size, ps.drop_last());
        assert(ps[ps.len() - 1] == ps.last());
    }
}

/// A count misses its length when some counted cell is open.
pub proof fn lemma_count_found_missing(nodes: Seq<Node>, size: usize, ps: Seq<Coord>, j: int)
    requires
        0 <= j < ps.len(),
        !nodes[flat_of(size, ps[j])].found(),
    ensures
        count_found_in(nodes, size, ps) < ps.len(),
{
    lemma_count_found_bounds(nodes, size, ps);
    if count_found_in(nodes, size, ps) == ps.len() {
        lemma_count_found_full(nodes, size, ps);
    }
}

} // verus!
