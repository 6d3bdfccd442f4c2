use vstd::prelude::*;

use crate::errors::RatioError;
use crate::fixed::{MAX_PRICE_UNITS, SCALE};
use crate::market::{asks_sorted, wf_levels, OrderBookInfo};
use crate::ratio::OrderSide;

verus! {

/// The levels a trade on `side` consumes.
pub open spec fn side_levels(book: OrderBookInfo, side: OrderSide) -> Seq<(u64, u64)> {
    match side {
        OrderSide::Buy => book.asks@,
        OrderSide::Sell => book.bids@,
    }
}

/// The best price of the walked side.
pub open spec fn side_best(book: OrderBookInfo, side: OrderSide) -> u64 {
    match side {
        OrderSide::Buy => book.best_ask,
        OrderSide::Sell => book.best_bid,
    }
}

/// Total quantity resting across all levels of one side.
pub open spec fn total_quantity(levels: Seq<(u64, u64)>) -> int
    decreases levels.len(),
{
    if levels.len() == 0 {
        0
    } else {
        levels[0].1 + total_quantity(levels.drop_first())
    }
}

/// Quantity filled when volume `v` is walked from the best level down:
/// each level contributes `min(remaining, quantity)`.
pub open spec fn fill_amount(levels: Seq<(u64, u64)>, v: int) -> int
    decreases levels.len(),
{
    if v <= 0 || levels.len() == 0 {
        0
    } else {
        let take = if v <= levels[0].1 {
            v
        } else {
            levels[0].1 as int
        };
        take + fill_amount(levels.drop_first(), v - take)
    }
}

/// Cost of that fill: each level contributes `price * min(remaining, quantity)`.
pub open spec fn fill_cost(levels: Seq<(u64, u64)>, v: int) -> int
    decreases levels.len(),
{
    if v <= 0 || levels.len() == 0 {
        0
    } else {
        let take = if v <= levels[0].1 {
            v
        } else {
            levels[0].1 as int
        };
        levels[0].0 * take + fill_cost(levels.drop_first(), v - take)
    }
}

/// Number of levels touched when volume `v` is walked down the book. The
/// walk decrements the remaining volume by each level's full listed quantity,
/// not by the quantity actually filled, so the depth report can overcount
/// relative to the fill; that behaviour is kept deliberately.
pub open spec fn depth_count(levels: Seq<(u64, u64)>, v: int) -> int
    decreases levels.len(),
{
    if v <= 0 || levels.len() == 0 {
        0
    } else {
        1 + depth_count(levels.drop_first(), v - levels[0].1)
    }
}

/// Slippage of an effective price against the best price, as a percentage in
/// fixed-point units: `|eff - best| / best * 100`, floored at the fixed-point
/// precision.
pub open spec fn slippage_scaled(eff: int, best: int) -> int {
    let diff = if eff >= best {
        eff - best
    } else {
        best - eff
    };
    (diff * 100 * SCALE) / best
}

/// What walking one side of the book must return: the error carries the
/// requested volume against everything the book can fill; on success the
/// effective price is the floored cost-per-filled-unit, and a zero volume
/// fills nothing at the best price with no slippage.
pub open spec fn effective_price_result(book: OrderBookInfo, volume: u64, side: OrderSide) -> Result<
    (u64, u128),
    RatioError,
> {
    let levels = side_levels(book, side);
    let best = side_best(book, side);
    if total_quantity(levels) < volume {
        Err(
            RatioError::InsufficientLiquidity {
                requested: volume,
                available: fill_amount(levels, volume as int) as u64,
            },
        )
    } else if volume == 0 {
        Ok((best, 0u128))
    } else {
        let eff = fill_cost(levels, volume as int) / (volume as int);
        Ok((eff as u64, slippage_scaled(eff, best as int) as u128))
    }
}

pub proof fn lemma_total_quantity_nonneg(levels: Seq<(u64, u64)>)
    ensures
        total_quantity(levels) >= 0,
    decreases levels.len(),
{
    if levels.len() > 0 {
        lemma_total_quantity_nonneg(levels.drop_first());
    }
}

/// The fill is never negative, never exceeds the requested volume, and its
/// cost is never negative.
pub proof fn lemma_fill_basics(levels: Seq<(u64, u64)>, v: int)
    ensures
        0 <= fill_amount(levels, v),
        v >= 0 ==> fill_amount(levels, v) <= v,
        0 <= fill_cost(levels, v),
    decreases levels.len(),
{
    if v <= 0 || levels.len() == 0 {
    } else {
        let take = if v <= levels[0].1 {
            v
        } else {
            levels[0].1 as int
        };
        lemma_fill_basics(levels.drop_first(), v - take);
        assert(levels[0].0 * take >= 0) by (nonlinear_arith)
            requires
                levels[0].0 >= 0,
                take >= 0,
        ;
    }
}

/// The engine fills the whole request when the book is deep enough, and
/// everything the book holds otherwise.
pub proof fn lemma_fill_amount_total(levels: Seq<(u64, u64)>, v: int)
    requires
        v >= 0,
    ensures
        fill_amount(levels, v) == if v <= total_quantity(levels) {
            v
        } else {
            total_quantity(levels)
        },
    decreases levels.len(),
{
    lemma_total_quantity_nonneg(levels);
    if v <= 0 || levels.len() == 0 {
    } else {
        let take = if v <= levels[0].1 {
            v
        } else {
            levels[0].1 as int
        };
        lemma_fill_amount_total(levels.drop_first(), v - take);
        lemma_total_quantity_nonneg(levels.drop_first());
    }
}

/// With every price at most `q`, the fill cost is at most `q` per filled unit.
pub proof fn lemma_fill_cost_le(levels: Seq<(u64, u64)>, v: int, q: int)
    requires
        forall|i: int| 0 <= i < levels.len() ==> (#[trigger] levels[i]).0 <= q,
    ensures
        fill_cost(levels, v) <= q * fill_amount(levels, v),
    decreases levels.len(),
{
    if v <= 0 || levels.len() == 0 {
        assert(q * 0 == 0) by (nonlinear_arith);
    } else {
        let take = if v <= levels[0].1 {
            v
        } else {
            levels[0].1 as int
        };
        let rest = levels.drop_first();
        assert(forall|i: int| 0 <= i < rest.len() ==> (#[trigger] rest[i]).0 <= q) by {
            assert(forall|i: int| 0 <= i < rest.len() ==> rest[i] == levels[i + 1]);
        }
        lemma_fill_cost_le(rest, v - take, q);
        lemma_fill_basics(rest, v - take);
        assert(fill_cost(levels, v) <= q * fill_amount(levels, v)) by (nonlinear_arith)
            requires
                fill_cost(levels, v) == levels[0].0 * take + fill_cost(rest, v - take),
                fill_amount(levels, v) == take + fill_amount(rest, v - take),
                fill_cost(rest, v - take) <= q * fill_amount(rest, v - take),
                fill_amount(rest, v - take) >= 0,
                levels[0].0 <= q,
                take >= 0,
        ;
    }
}

/// With every price at least `p`, the fill cost is at least `p` per filled
/// unit.
pub proof fn lemma_fill_cost_ge(levels: Seq<(u64, u64)>, v: int, p: int)
    requires
        p >= 0,
        forall|i: int| 0 <= i < levels.len() ==> (#[trigger] levels[i]).0 >= p,
    ensures
        fill_cost(levels, v) >= p * fill_amount(levels, v),
    decreases levels.len(),
{
    if v <= 0 || levels.len() == 0 {
        assert(p * 0 == 0) by (nonlinear_arith);
    } else {
        let take = if v <= levels[0].1 {
            v
        } else {
            levels[0].1 as int
        };
        let rest = levels.drop_first();
        assert(forall|i: int| 0 <= i < rest.len() ==> (#[trigger] rest[i]).0 >= p) by {
            assert(forall|i: int| 0 <= i < rest.len() ==> rest[i] == levels[i + 1]);
        }
        lemma_fill_cost_ge(rest, v - take, p);
        lemma_fill_basics(rest, v - take);
        assert(fill_cost(levels, v) >= p * fill_amount(levels, v)) by (nonlinear_arith)
            requires
                fill_cost(levels, v) == levels[0].0 * take + fill_cost(rest, v - take),
                fill_amount(levels, v) == take + fill_amount(rest, v - take),
                fill_cost(rest, v - take) >= p * fill_amount(rest, v - take),
                levels[0].0 >= p,
                p >= 0,
                take >= 0,
        ;
    }
}

/// The depth walk touches between zero and all levels; with a positive volume
/// against a non-empty book it touches at least one.
pub proof fn lemma_depth_count_range(levels: Seq<(u64, u64)>, v: int)
    ensures
        0 <= depth_count(levels, v) <= levels.len(),
        v > 0 && levels.len() > 0 ==> depth_count(levels, v) >= 1,
    decreases levels.len(),
{
    if v <= 0 || levels.len() == 0 {
    } else {
        lemma_depth_count_range(levels.drop_first(), v - levels[0].1);
    }
}

/// The price of the deepest level the volume walk touches.
pub open spec fn worst_touched_price(levels: Seq<(u64, u64)>, v: int) -> int {
    levels[depth_count(levels, v) - 1].0 as int
}

/// With every touched price at most `q`, the fill cost is at most `q` per
/// filled unit.
proof fn lemma_fill_cost_le_touched(levels: Seq<(u64, u64)>, v: int, q: int)
    requires
        q >= 0,
        forall|i: int| 0 <= i < depth_count(levels, v) ==> (#[trigger] levels[i]).0 <= q,
    ensures
        fill_cost(levels, v) <= q * fill_amount(levels, v),
    decreases levels.len(),
{
    if v <= 0 || levels.len() == 0 {
        assert(q * 0 == 0) by (nonlinear_arith);
    } else {
        let take = if v <= levels[0].1 {
            v
        } else {
            levels[0].1 as int
        };
        let rest = levels.drop_first();
        lemma_depth_count_range(levels, v);
        assert(levels[0].0 <= q);
        assert(forall|i: int|
            0 <= i < depth_count(rest, v - levels[0].1) ==> (#[trigger] rest[i]).0 <= q) by {
            assert(forall|i: int| 0 <= i < rest.len() ==> rest[i] == levels[i + 1]);
        }
        if v <= levels[0].1 {
            // the remaining volume is zero, so the rest contributes nothing
            lemma_fill_cost_le_touched(rest, 0, q);
            assert(fill_cost(rest, v - take) == 0);
            assert(fill_amount(rest, v - take) == 0);
        } else {
            lemma_fill_cost_le_touched(rest, v - take, q);
        }
        lemma_fill_basics(rest, v - take);
        assert(fill_cost(levels, v) <= q * fill_amount(levels, v)) by (nonlinear_arith)
            requires
                fill_cost(levels, v) == levels[0].0 * take + fill_cost(rest, v - take),
                fill_amount(levels, v) == take + fill_amount(rest, v - take),
                fill_cost(rest, v - take) <= q * fill_amount(rest, v - take),
                fill_amount(rest, v - take) >= 0,
                levels[0].0 <= q,
                take >= 0,
        ;
    }
}

/// The effective buy price is a volume-weighted average bounded between the
/// best ask and the worst touched ask: stated over the exact fill, the cost
/// lies between `best * filled` and `worst_touched * filled`.
pub proof fn lemma_effective_price_bounds(levels: Seq<(u64, u64)>, v: int)
    requires
        asks_sorted(levels),
        0 < v <= total_quantity(levels),
    ensures
        levels[0].0 * fill_amount(levels, v) <= fill_cost(levels, v),
        fill_cost(levels, v) <= worst_touched_price(levels, v) * fill_amount(levels, v),
{
    lemma_total_quantity_nonneg(levels.drop_first());
    assert(levels.len() > 0);
    lemma_depth_count_range(levels, v);
    let depth = depth_count(levels, v);
    let worst = levels[depth - 1].0 as int;
    assert(forall|i: int| 0 <= i < levels.len() ==> (#[trigger] levels[i]).0 >= levels[0].0) by {
        assert(forall|i: int| 0 < i < levels.len() ==> levels[0].0 < (#[trigger] levels[i]).0);
    }
    lemma_fill_cost_ge(levels, v, levels[0].0 as int);
    assert(forall|i: int| 0 <= i < depth ==> (#[trigger] levels[i]).0 <= worst) by {
        assert(forall|i: int| 0 <= i < depth - 1 ==> (#[trigger] levels[i]).0 < levels[depth - 1].0);
    }
    lemma_fill_cost_le_touched(levels, v, worst);
}

/// The marginal cost of filling more is at least `p` per extra unit, when
/// every price is at least `p`.
proof fn lemma_fill_cost_marginal_ge(levels: Seq<(u64, u64)>, a: int, b: int, p: int)
    requires
        a <= b,
        p >= 0,
        forall|i: int| 0 <= i < levels.len() ==> (#[trigger] levels[i]).0 >= p,
    ensures
        fill_cost(levels, b) - fill_cost(levels, a) >= p * (fill_amount(levels, b) - fill_amount(
            levels,
            a,
        )),
    decreases levels.len(),
{
    if b <= 0 || levels.len() == 0 {
        assert(p * 0 == 0) by (nonlinear_arith);
    } else if a <= 0 {
        lemma_fill_cost_ge(levels, b, p);
        assert(fill_cost(levels, a) == 0);
        assert(fill_amount(levels, a) == 0);
    } else {
        let q0 = levels[0].1 as int;
        let p0 = levels[0].0 as int;
        let take_a = if a <= q0 {
            a
        } else {
            q0
        };
        let take_b = if b <= q0 {
            b
        } else {
            q0
        };
        let rest = levels.drop_first();
        assert(forall|i: int| 0 <= i < rest.len() ==> (#[trigger] rest[i]).0 >= p) by {
            assert(forall|i: int| 0 <= i < rest.len() ==> rest[i] == levels[i + 1]);
        }
        lemma_fill_cost_marginal_ge(rest, a - take_a, b - take_b, p);
        assert(fill_cost(levels, b) - fill_cost(levels, a) >= p * (fill_amount(levels, b)
            - fill_amount(levels, a))) by (nonlinear_arith)
            requires
                fill_cost(levels, a) == p0 * take_a + fill_cost(rest, a - take_a),
                fill_cost(levels, b) == p0 * take_b + fill_cost(rest, b - take_b),
                fill_amount(levels, a) == take_a + fill_amount(rest, a - take_a),
                fill_amount(levels, b) == take_b + fill_amount(rest, b - take_b),
                fill_cost(rest, b - take_b) - fill_cost(rest, a - take_a) >= p * (fill_amount(
                    rest,
                    b - take_b,
                ) - fill_amount(rest, a - take_a)),
                p0 >= p,
                p >= 0,
                take_b >= take_a,
        ;
    }
}

/// The effective price is non-decreasing in the requested volume: for volumes
/// the book can fill, the cost per unit of the smaller volume never exceeds
/// the cost per unit of the larger, stated by cross-multiplication.
pub proof fn lemma_effective_price_monotone(levels: Seq<(u64, u64)>, v1: int, v2: int)
    requires
        asks_sorted(levels),
        0 < v1 <= v2 <= total_quantity(levels),
    ensures
        fill_cost(levels, v1) * v2 <= fill_cost(levels, v2) * v1,
    decreases levels.len(),
{
    lemma_total_quantity_nonneg(levels.drop_first());
    assert(levels.len() > 0);
    let p0 = levels[0].0 as int;
    let q0 = levels[0].1 as int;
    let rest = levels.drop_first();
    assert(forall|i: int| 0 <= i < rest.len() ==> (#[trigger] rest[i]).0 >= p0) by {
        assert(forall|i: int| 0 < i < levels.len() ==> levels[0].0 < (#[trigger] levels[i]).0);
        assert(forall|i: int| 0 <= i < rest.len() ==> rest[i] == levels[i + 1]);
    }
    assert(asks_sorted(rest)) by {
        assert(forall|i: int| 0 <= i < rest.len() ==> rest[i] == levels[i + 1]);
    }
    lemma_total_quantity_nonneg(rest);
    if v2 <= q0 {
        assert(fill_cost(levels, v1) == p0 * v1 + fill_cost(rest, 0));
        assert(fill_cost(levels, v2) == p0 * v2 + fill_cost(rest, 0));
        assert((p0 * v1) * v2 <= (p0 * v2) * v1) by (nonlinear_arith);
    } else if v1 <= q0 {
        // v1 fits in the best level, v2 spills into the rest
        let c2 = fill_cost(rest, v2 - q0);
        lemma_fill_cost_ge(rest, v2 - q0, p0);
        lemma_fill_amount_total(rest, v2 - q0);
        assert(fill_amount(rest, v2 - q0) == v2 - q0);
        assert(fill_cost(rest, 0) == 0);
        assert(fill_cost(levels, v1) == p0 * v1);
        assert(fill_cost(levels, v2) == p0 * q0 + c2);
        assert((p0 * v1) * v2 <= (p0 * q0 + c2) * v1) by (nonlinear_arith)
            requires
                c2 >= p0 * (v2 - q0),
                0 < v1 <= q0,
                q0 < v2,
                p0 >= 0,
        ;
    } else {
        // both volumes spill into the rest
        let a = v1 - q0;
        let b = v2 - q0;
        let ca = fill_cost(rest, a);
        let cb = fill_cost(rest, b);
        lemma_effective_price_monotone(rest, a, b);
        lemma_fill_cost_marginal_ge(rest, a, b, p0);
        lemma_fill_amount_total(rest, a);
        lemma_fill_amount_total(rest, b);
        assert(fill_amount(rest, a) == a);
        assert(fill_amount(rest, b) == b);
        assert(fill_cost(levels, v1) == p0 * q0 + ca);
        assert(fill_cost(levels, v2) == p0 * q0 + cb);
        assert((p0 * q0 + ca) * v2 <= (p0 * q0 + cb) * v1) by (nonlinear_arith)
            requires
                ca * b <= cb * a,
                cb - ca >= p0 * (b - a),
                v1 == q0 + a,
                v2 == q0 + b,
                0 < a <= b,
                q0 >= 0,
                p0 >= 0,
        ;
    }
}

/// The effective buy price the engine returns is non-decreasing in the
/// requested volume: for two volumes a well-formed book can fill, the
/// smaller volume's price never exceeds the larger volume's.
pub proof fn lemma_effective_price_result_monotone(book: OrderBookInfo, v1: u64, v2: u64)
    requires
        book.wf(),
        0 < v1 <= v2,
        v2 <= total_quantity(book.asks@),
    ensures
        ({
            let r1 = effective_price_result(book, v1, OrderSide::Buy);
            let r2 = effective_price_result(book, v2, OrderSide::Buy);
            &&& r1 is Ok
            &&& r2 is Ok
            &&& r1->Ok_0.0 <= r2->Ok_0.0
        }),
{
    let levels = book.asks@;
    let c1 = fill_cost(levels, v1 as int);
    let c2 = fill_cost(levels, v2 as int);
    lemma_effective_price_monotone(levels, v1 as int, v2 as int);
    lemma_fill_basics(levels, v1 as int);
    lemma_fill_basics(levels, v2 as int);
    lemma_fill_amount_total(levels, v1 as int);
    lemma_fill_amount_total(levels, v2 as int);
    lemma_fill_cost_le(levels, v1 as int, MAX_PRICE_UNITS as int);
    lemma_fill_cost_le(levels, v2 as int, MAX_PRICE_UNITS as int);
    assert(c1 <= MAX_PRICE_UNITS * v1 && c2 <= MAX_PRICE_UNITS * v2) by (nonlinear_arith)
        requires
            c1 <= MAX_PRICE_UNITS * fill_amount(levels, v1 as int),
            c2 <= MAX_PRICE_UNITS * fill_amount(levels, v2 as int),
            fill_amount(levels, v1 as int) == v1 as int,
            fill_amount(levels, v2 as int) == v2 as int,
    ;
    let e1 = c1 / (v1 as int);
    let e2 = c2 / (v2 as int);
    assert(0 <= e1 <= MAX_PRICE_UNITS && 0 <= e2 <= MAX_PRICE_UNITS) by (nonlinear_arith)
        requires
            0 <= c1 <= MAX_PRICE_UNITS * v1,
            0 <= c2 <= MAX_PRICE_UNITS * v2,
            v1 > 0,
            v2 > 0,
            e1 == c1 / (v1 as int),
            e2 == c2 / (v2 as int),
            MAX_PRICE_UNITS >= 0,
    ;
    // the floored quotients order as the exact fractions do
    assert(e1 * v1 <= c1) by (nonlinear_arith)
        requires
            e1 == c1 / (v1 as int),
            c1 >= 0,
            v1 > 0,
    ;
    assert(e1 * v2 <= c2) by (nonlinear_arith)
        requires
            e1 * v1 <= c1,
            c1 * v2 <= c2 * v1,
            0 < v1 <= v2,
            e1 >= 0,
    ;
    assert(e1 <= e2) by (nonlinear_arith)
        requires
            e1 * v2 <= c2,
            e2 == c2 / (v2 as int),
            v2 > 0,
    ;
}

/// Walk the chosen side of the book from the best price, accumulating filled
/// quantity and cost until the requested volume is filled or the levels are
/// exhausted; fail with `InsufficientLiquidity` only after scanning the whole
/// book. On success return the effective price and the slippage percentage in
/// fixed-point units.
pub fn calculate_effective_price(book: &OrderBookInfo, volume: u64, side: OrderSide) -> (r: Result<
    (u64, u128),
    RatioError,
>)
    requires
        book.wf(),
        volume == 0 ==> side_levels(*book, side).len() > 0,
    ensures
        r == effective_price_result(*book, volume, side),
        r is Ok && volume > 0 ==> {
            let eff = r->Ok_0.0;
            &&& 0 < eff <= MAX_PRICE_UNITS
            &&& (side == OrderSide::Buy ==> side_best(*book, side) <= eff)
            &&& (side == OrderSide::Sell ==> eff <= side_best(*book, side))
        },
{
    let levels: &Vec<(u64, u64)> = match side {
        OrderSide::Buy => &book.asks,
        OrderSide::Sell => &book.bids,
    };
    let best: u64 = match side {
        OrderSide::Buy => book.best_ask,
        OrderSide::Sell => book.best_bid,
    };
    let ghost lseq = levels@;
    let ghost len = lseq.len() as int;
    proof {
        lemma_total_quantity_nonneg(lseq);
        lemma_fill_basics(lseq, volume as int);
        lemma_fill_cost_le(lseq, volume as int, MAX_PRICE_UNITS as int);
        assert(MAX_PRICE_UNITS * fill_amount(lseq, volume as int) <= MAX_PRICE_UNITS * (
        volume as int)) by (nonlinear_arith)
            requires
                fill_amount(lseq, volume as int) <= volume as int,
        ;
        assert(lseq.subrange(0, len) =~= lseq);
    }
    if volume == 0 {
        return Ok((best, 0));
    }
    let mut remaining: u64 = volume;
    let mut total_cost: u128 = 0;
    let mut i: usize = 0;
    while i < levels.len() && remaining > 0
        invariant
            book.wf(),
            lseq == levels@,
            len == lseq.len() as int,
            wf_levels(lseq),
            i <= levels.len(),
            remaining <= volume,
            volume > 0,
            total_cost + fill_cost(lseq.subrange(i as int, len), remaining as int) == fill_cost(
                lseq,
                volume as int,
            ),
            volume - remaining + fill_amount(lseq.subrange(i as int, len), remaining as int)
                == fill_amount(lseq, volume as int),
            fill_cost(lseq, volume as int) <= MAX_PRICE_UNITS * (volume as int),
        decreases len - i,
    {
        let (price, qty) = levels[i];
        let fill_qty: u64 = if remaining < qty {
            remaining
        } else {
            qty
        };
        proof {
            let s = lseq.subrange(i as int, len);
            assert(s.drop_first() =~= lseq.subrange(i + 1, len));
            assert(s[0] == lseq[i as int]);
            lemma_fill_basics(s.drop_first(), remaining - fill_qty);
            assert(fill_cost(s, remaining as int) == s[0].0 * fill_qty + fill_cost(
                s.drop_first(),
                remaining - fill_qty,
            ));
            assert(fill_amount(s, remaining as int) == fill_qty + fill_amount(
                s.drop_first(),
                remaining - fill_qty,
            ));
            assert(total_cost + price * fill_qty + fill_cost(s.drop_first(), remaining - fill_qty)
                == fill_cost(lseq, volume as int));
        }
        total_cost = total_cost + (price as u128) * (fill_qty as u128);
        remaining = remaining - fill_qty;
        i = i + 1;
    }
    proof {
        if remaining > 0 {
            assert(i == levels.len());
            assert(lseq.subrange(len, len) =~= Seq::<(u64, u64)>::empty());
        }
    }
    let filled: u64 = volume - remaining;
    if filled < volume {
        proof {
            lemma_fill_amount_total(lseq, volume as int);
        }
        return Err(RatioError::InsufficientLiquidity { requested: volume, available: filled });
    }
    proof {
        lemma_fill_amount_total(lseq, volume as int);
        assert(total_quantity(lseq) >= volume);
        assert(lseq.len() > 0);
        assert(total_cost == fill_cost(lseq, volume as int));
        assert(total_cost / (volume as u128) <= MAX_PRICE_UNITS) by (nonlinear_arith)
            requires
                total_cost <= MAX_PRICE_UNITS * (volume as int),
                volume > 0,
                MAX_PRICE_UNITS >= 0,
        ;
    }
    let eff: u64 = (total_cost / (volume as u128)) as u64;
    proof {
        assert(best == lseq[0].0);
        assert(best > 0);
        assert(forall|k: int| 0 <= k < lseq.len() ==> (#[trigger] lseq[k]).0 >= 1);
        lemma_fill_cost_ge(lseq, volume as int, 1);
        assert(fill_cost(lseq, volume as int) >= volume) by (nonlinear_arith)
            requires
                fill_cost(lseq, volume as int) >= 1 * fill_amount(lseq, volume as int),
                fill_amount(lseq, volume as int) == volume as int,
        ;
        assert(total_cost / (volume as u128) >= 1) by (nonlinear_arith)
            requires
                total_cost >= volume,
                volume > 0,
        ;
        match side {
            OrderSide::Buy => {
                assert(forall|k: int|
                    0 <= k < lseq.len() ==> (#[trigger] lseq[k]).0 >= best) by {
                    assert(forall|k: int| 0 < k < lseq.len() ==> lseq[0].0 < (#[trigger] lseq[k]).0);
                }
                lemma_fill_cost_ge(lseq, volume as int, best as int);
                assert(total_cost / (volume as u128) >= best) by (nonlinear_arith)
                    requires
                        total_cost >= best * (volume as int),
                        volume > 0,
                        best >= 0,
                ;
            },
            OrderSide::Sell => {
                assert(forall|k: int|
                    0 <= k < lseq.len() ==> (#[trigger] lseq[k]).0 <= best) by {
                    assert(forall|k: int| 0 < k < lseq.len() ==> lseq[0].0 > (#[trigger] lseq[k]).0);
                }
                lemma_fill_cost_le(lseq, volume as int, best as int);
                assert(best * fill_amount(lseq, volume as int) == best * (volume as int));
                assert(total_cost / (volume as u128) <= best) by (nonlinear_arith)
                    requires
                        total_cost <= best * (volume as int),
                        volume > 0,
                        best >= 0,
                ;
            },
        }
    }
    let diff: u64 = if eff >= best {
        eff - best
    } else {
        best - eff
    };
    let slip: u128 = (diff as u128) * 100 * (SCALE as u128) / (best as u128);
    Ok((eff, slip))
}

/// Count how many levels a volume walk touches; see `depth_count`.
pub fn calculate_depth_consumed(levels: &Vec<(u64, u64)>, volume: u64) -> (count: usize)
    ensures
        count == depth_count(levels@, volume as int),
{
    let ghost lseq = levels@;
    let ghost len = lseq.len() as int;
    proof {
        assert(lseq.subrange(0, len) =~= lseq);
    }
    let mut remaining: u64 = volume;
    let mut count: usize = 0;
    while count < levels.len() && remaining > 0
        invariant
            lseq == levels@,
            len == lseq.len() as int,
            count <= levels.len(),
            depth_count(lseq, volume as int) == count + depth_count(
                lseq.subrange(count as int, len),
                remaining as int,
            ),
        decreases len - count,
    {
        let (_price, qty) = levels[count];
        let ghost rem0 = remaining as int;
        let ghost c0 = count as int;
        count = count + 1;
        remaining = if qty >= remaining {
            0
        } else {
            remaining - qty
        };
        proof {
            let s = lseq.subrange(c0, len);
            assert(s.drop_first() =~= lseq.subrange(c0 + 1, len));
            assert(s[0] == lseq[c0]);
            assert(depth_count(s, rem0) == 1 + depth_count(s.drop_first(), rem0 - qty));
            if qty >= rem0 {
                assert(depth_count(lseq.subrange(c0 + 1, len), rem0 - qty) == 0);
                assert(depth_count(lseq.subrange(c0 + 1, len), remaining as int) == 0);
            }
        }
    }
    proof {
        if remaining > 0 {
            assert(lseq.subrange(count as int, len) =~= Seq::<(u64, u64)>::empty());
        }
    }
    count
}

} // verus!
