use rand::Rng;
use vstd::prelude::*;
use crate::error::BoardError;
use crate::field::Position;
use crate::grid::precedes;
use crate::size::Size;

verus! {

/// No position occurs twice in `ps`.
pub open spec fn distinct(ps: Seq<Position>) -> bool {
    forall|a: int, b: int| 0 <= a < b < ps.len() ==> ps[a] != ps[b]
}

/// Every position of `ps` lies within `size`.
pub open spec fn all_inside(ps: Seq<Position>, size: Size) -> bool {
    forall|k: int| 0 <= k < ps.len() ==> size.inside((#[trigger] ps[k]).0 as int, ps[k].1 as int)
}

/// `ps` with the positions at `a` and `b` exchanged.
pub open spec fn exchanged(ps: Seq<Position>, a: int, b: int) -> Seq<Position> {
    ps.update(a, ps[b]).update(b, ps[a])
}

/// A number drawn from `min..max` by `rand::Rng::gen_range` on
/// `rand::thread_rng()`. Trusted: the result lies in the range, which has to
/// hold a number, since `gen_range` panics on an empty one. Which number
/// comes is left open.
#[verifier::external_body]
pub fn random_range(min: usize, max: usize) -> (n: usize)
    requires
        min < max,
    ensures
        min <= n < max,
{
    let mut rng = rand::thread_rng();
    rng.gen_range(min..max)
}

/// A position drawn from the cells of `size`.
pub fn random_position(size: Size) -> (position: Position)
    requires
        size.rows() > 0,
        size.cols() > 0,
    ensures
        size.inside(position.0 as int, position.1 as int),
{
    (random_range(0, size.get_rows()), random_range(0, size.get_cols()))
}

/// Every position of `size`, row by row.
fn all_positions(size: Size) -> (pool: Vec<Position>)
    requires
        size.cells() <= usize::MAX,
    ensures
        pool@.len() == size.cells(),
        all_inside(pool@, size),
        distinct(pool@),
{
    let rows: usize = size.get_rows();
    let cols: usize = size.get_cols();
    let mut pool: Vec<Position> = Vec::new();
    let mut r: usize = 0;
    while r < rows
        invariant
            r <= rows,
            rows == size.rows(),
            cols == size.cols(),
            pool@.len() == r * cols,
            all_inside(pool@, size),
            forall|k: int| 0 <= k < pool@.len() ==> (#[trigger] pool@[k]).0 < r,
            forall|a: int, b: int| 0 <= a < b < pool@.len() ==> precedes(pool@[a], pool@[b]),
        decreases rows - r,
    {
        let mut c: usize = 0;
        while c < cols
            invariant
                r < rows,
                c <= cols,
                rows == size.rows(),
                cols == size.cols(),
                pool@.len() == r * cols + c,
                all_inside(pool@, size),
                forall|k: int|
                    0 <= k < pool@.len() ==> precedes(#[trigger] pool@[k], (r, c)),
                forall|a: int, b: int| 0 <= a < b < pool@.len() ==> precedes(pool@[a], pool@[b]),
            decreases cols - c,
        {
            pool.push((r, c));
            c += 1;
        }
        proof {
            assert(r * cols + cols == (r + 1) * cols) by (nonlinear_arith);
        }
        r += 1;
    }
    proof {
        assert forall|a: int, b: int| 0 <= a < b < pool@.len() implies pool@[a] != pool@[b] by {
            assert(precedes(pool@[a], pool@[b]));
        }
    }
    pool
}

/// Exchanges the positions at `place` and `drawn`.
pub fn pick(pool: &mut Vec<Position>, place: usize, drawn: usize)
    requires
        place < old(pool)@.len(),
        drawn < old(pool)@.len(),
    ensures
        final(pool)@ == exchanged(old(pool)@, place as int, drawn as int),
{
    let first = pool[place];
    let second = pool[drawn];
    pool.set(place, second);
    pool.set(drawn, first);
}

/// An exchange keeps the positions distinct and where they were: within
/// `size`.
pub proof fn lemma_exchanged(ps: Seq<Position>, a: int, b: int, size: Size)
    requires
        0 <= a < ps.len(),
        0 <= b < ps.len(),
        distinct(ps),
        all_inside(ps, size),
    ensures
        exchanged(ps, a, b).len() == ps.len(),
        distinct(exchanged(ps, a, b)),
        all_inside(exchanged(ps, a, b), size),
{
    let qs = exchanged(ps, a, b);
    assert forall|x: int, y: int| 0 <= x < y < qs.len() implies qs[x] != qs[y] by {
        let from_x = if x == a { b } else if x == b { a } else { x };
        let from_y = if y == a { b } else if y == b { a } else { y };
        assert(qs[x] == ps[from_x]);
        assert(qs[y] == ps[from_y]);
        if from_x < from_y {
            assert(ps[from_x] != ps[from_y]);
        } else {
            assert(ps[from_y] != ps[from_x]);
        }
    }
    assert forall|k: int| 0 <= k < qs.len() implies size.inside(
        (#[trigger] qs[k]).0 as int,
        qs[k].1 as int,
    ) by {
        let from = if k == a { b } else if k == b { a } else { k };
        assert(qs[k] == ps[from]);
    }
}

/// `total` distinct positions within `size`, in no promised order. Fails
/// with `SamplerExhausted` where `size` has fewer than `total` cells.
///
/// Each place of the result is filled by one draw among the cells not yet
/// taken, so a draw is never thrown away and `total` draws are enough.
pub fn random_position_vec(size: Size, total: usize) -> (drawn: Result<
    Vec<Position>,
    BoardError,
>)
    requires
        size.cells() <= usize::MAX,
    ensures
        drawn is Ok <==> total <= size.cells(),
        drawn matches Ok(positions) ==> positions@.len() == total && distinct(positions@)
            && all_inside(positions@, size),
        drawn matches Err(e) ==> e == BoardError::SamplerExhausted,
{
    let cells: usize = size.total();
    if total > cells {
        return Err(BoardError::SamplerExhausted);
    }
    let mut pool = all_positions(size);
    let mut i: usize = 0;
    while i < total
        invariant
            i <= total <= cells,
            pool@.len() == cells,
            distinct(pool@),
            all_inside(pool@, size),
        decreases total - i,
    {
        let j: usize = random_range(i, cells);
        proof {
            lemma_exchanged(pool@, i as int, j as int, size);
        }
        pick(&mut pool, i, j);
        i += 1;
    }
    pool.truncate(total);
    Ok(pool)
}

} // verus!
