use vstd::prelude::*;
use vstd::string::StringExecFns;
use vstd::string::StrSliceExecFns;

use crate::engine::{
    calculate_depth_consumed, calculate_effective_price, depth_count, effective_price_result,
    side_levels,
};
use crate::errors::RatioError;
use crate::fixed::{scaled_decimal, spec_scaled_decimal, MAX_PRICE_UNITS, SCALE};
use crate::market::OrderBookInfo;

verus! {

/// Which side of the book a trade consumes: a buy walks the asks, a sell
/// walks the bids.
#[derive(Debug, Clone, Copy, PartialEq, Eq, Structural)]
pub enum OrderSide {
    Buy,
    Sell,
}

/// An exact ratio of two fixed-point amounts, kept as an integer fraction so
/// that no precision is lost.
#[derive(Debug, Clone, Copy, PartialEq, Eq, Structural)]
pub struct Ratio {
    pub num: u64,
    pub den: u64,
}

impl Ratio {
    /// Numerator and denominator are positive prices within the fixed-point
    /// bound.
    pub open spec fn wf(&self) -> bool {
        &&& 0 < self.num <= MAX_PRICE_UNITS
        &&& 0 < self.den <= MAX_PRICE_UNITS
    }

    /// The ratio value brought to eight decimal places, rounded half-up.
    pub open spec fn spec_scaled8(&self) -> int {
        (self.num * SCALE + self.den / 2) / self.den as int
    }

    /// The ratio value brought to eight decimal places, rounded half-up.
    pub fn scaled8(&self) -> (r: u128)
        requires
            self.wf(),
        ensures
            r == self.spec_scaled8(),
            r <= MAX_PRICE_UNITS * SCALE + MAX_PRICE_UNITS,
    {
        let r = ((self.num as u128) * (SCALE as u128) + ((self.den / 2) as u128)) / (
        self.den as u128);
        proof {
            assert(r <= self.num * SCALE + self.den / 2) by (nonlinear_arith)
                requires
                    self.den >= 1,
                    r == (self.num * SCALE + self.den / 2) / self.den as int,
                    self.num * SCALE + self.den / 2 >= 0,
            ;
            assert(self.num * SCALE <= MAX_PRICE_UNITS * SCALE) by (nonlinear_arith)
                requires
                    0 < self.num <= MAX_PRICE_UNITS,
                    SCALE > 0,
            ;
        }
        r
    }
}

/// A pair ratio computed from two plain quotes.
#[derive(Debug, Clone)]
pub struct SimpleRatio {
    pub pair_name: String,
    pub symbol_a: String,
    pub symbol_b: String,
    pub price_a: u64,
    pub price_b: u64,
    pub ratio: Ratio,
    pub timestamp: u64,
}

impl SimpleRatio {
    /// Both prices are positive and in range, and the stored ratio is exactly
    /// their fraction.
    pub open spec fn wf(&self) -> bool {
        &&& 0 < self.price_a <= MAX_PRICE_UNITS
        &&& 0 < self.price_b <= MAX_PRICE_UNITS
        &&& self.ratio == (Ratio { num: self.price_a, den: self.price_b })
    }
}

/// A pair ratio computed from the effective prices of filling one volume
/// against both order books.
#[derive(Debug, Clone)]
pub struct VolumeBasedRatio {
    pub pair_name: String,
    pub symbol_a: String,
    pub symbol_b: String,
    pub volume: u64,
    pub effective_price_a: u64,
    pub effective_price_b: u64,
    pub ratio: Ratio,
    pub slippage_a: u128,
    pub slippage_b: u128,
    pub timestamp: u64,
}

impl VolumeBasedRatio {
    pub open spec fn wf(&self) -> bool {
        &&& 0 < self.effective_price_a <= MAX_PRICE_UNITS
        &&& 0 < self.effective_price_b <= MAX_PRICE_UNITS
        &&& self.ratio == (Ratio { num: self.effective_price_a, den: self.effective_price_b })
        &&& self.volume > 0
    }
}

/// Slippage of one requested volume against one book.
#[derive(Debug, Clone)]
pub struct SlippageAnalysis {
    pub symbol: String,
    pub mid_price: u64,
    pub volume: u64,
    pub side: OrderSide,
    pub effective_price: u64,
    pub slippage_percentage: u128,
    pub depth_consumed: usize,
    pub total_cost: u128,
}

/// Combine two quotes into the pair's simple ratio: the stored ratio is
/// exactly `price_a / price_b` as an integer fraction, with no rounding.
pub fn calculate_simple_ratio(
    pair_name: &str,
    symbol_a: &str,
    symbol_b: &str,
    price_a: u64,
    price_b: u64,
    timestamp: u64,
) -> (r: SimpleRatio)
    requires
        0 < price_a <= MAX_PRICE_UNITS,
        0 < price_b <= MAX_PRICE_UNITS,
    ensures
        r.pair_name@ == pair_name@,
        r.symbol_a@ == symbol_a@,
        r.symbol_b@ == symbol_b@,
        r.price_a == price_a,
        r.price_b == price_b,
        r.ratio == (Ratio { num: price_a, den: price_b }),
        r.timestamp == timestamp,
        r.wf(),
{
    SimpleRatio {
        pair_name: pair_name.to_owned(),
        symbol_a: symbol_a.to_owned(),
        symbol_b: symbol_b.to_owned(),
        price_a,
        price_b,
        ratio: Ratio { num: price_a, den: price_b },
        timestamp,
    }
}

/// Fill the same requested volume against the ask side of both books and
/// combine the two effective prices into a ratio. An `InsufficientLiquidity`
/// failure of either book propagates unchanged, the first book first.
pub fn calculate_volume_based_ratio(
    pair_name: &str,
    symbol_a: &str,
    symbol_b: &str,
    book_a: &OrderBookInfo,
    book_b: &OrderBookInfo,
    volume: u64,
    timestamp: u64,
) -> (r: Result<VolumeBasedRatio, RatioError>)
    requires
        book_a.wf(),
        book_b.wf(),
        volume > 0,
    ensures
        ({
            let ra = effective_price_result(*book_a, volume, OrderSide::Buy);
            let rb = effective_price_result(*book_b, volume, OrderSide::Buy);
            &&& (ra is Err ==> r == Err::<VolumeBasedRatio, RatioError>(ra->Err_0))
            &&& (ra is Ok && rb is Err ==> r == Err::<VolumeBasedRatio, RatioError>(rb->Err_0))
            &&& (ra is Ok && rb is Ok ==> {
                &&& r is Ok
                &&& r->Ok_0.pair_name@ == pair_name@
                &&& r->Ok_0.symbol_a@ == symbol_a@
                &&& r->Ok_0.symbol_b@ == symbol_b@
                &&& r->Ok_0.volume == volume
                &&& r->Ok_0.effective_price_a == ra->Ok_0.0
                &&& r->Ok_0.effective_price_b == rb->Ok_0.0
                &&& r->Ok_0.slippage_a == ra->Ok_0.1
                &&& r->Ok_0.slippage_b == rb->Ok_0.1
                &&& r->Ok_0.ratio == (Ratio { num: ra->Ok_0.0, den: rb->Ok_0.0 })
                &&& r->Ok_0.timestamp == timestamp
                &&& r->Ok_0.wf()
            })
        }),
{
    let eff_a = match calculate_effective_price(book_a, volume, OrderSide::Buy) {
        Ok(v) => v,
        Err(e) => {
            return Err(e);
        },
    };
    let eff_b = match calculate_effective_price(book_b, volume, OrderSide::Buy) {
        Ok(v) => v,
        Err(e) => {
            return Err(e);
        },
    };
    Ok(
        VolumeBasedRatio {
            pair_name: pair_name.to_owned(),
            symbol_a: symbol_a.to_owned(),
            symbol_b: symbol_b.to_owned(),
            volume,
            effective_price_a: eff_a.0,
            effective_price_b: eff_b.0,
            ratio: Ratio { num: eff_a.0, den: eff_b.0 },
            slippage_a: eff_a.1,
            slippage_b: eff_b.1,
            timestamp,
        },
    )
}

/// Analyze the slippage of one requested volume against one book: the walked
/// side decides between asks and bids, the mid price averages the two best
/// prices, and the total cost is the effective price over the whole volume.
pub fn analyze_slippage(symbol: &str, book: &OrderBookInfo, volume: u64, side: OrderSide) -> (r:
    Result<SlippageAnalysis, RatioError>)
    requires
        book.wf(),
        volume > 0,
    ensures
        ({
            let re = effective_price_result(*book, volume, side);
            &&& (re is Err ==> r == Err::<SlippageAnalysis, RatioError>(re->Err_0))
            &&& (re is Ok ==> {
                &&& r is Ok
                &&& r->Ok_0.symbol@ == symbol@
                &&& r->Ok_0.mid_price == (book.best_bid + book.best_ask) as u64 / 2
                &&& r->Ok_0.volume == volume
                &&& r->Ok_0.side == side
                &&& r->Ok_0.effective_price == re->Ok_0.0
                &&& r->Ok_0.slippage_percentage == re->Ok_0.1
                &&& r->Ok_0.depth_consumed == depth_count(side_levels(*book, side), volume as int)
                &&& r->Ok_0.total_cost == re->Ok_0.0 * volume
            })
        }),
{
    let (eff, slip) = match calculate_effective_price(book, volume, side) {
        Ok(v) => v,
        Err(e) => {
            return Err(e);
        },
    };
    proof {
        assert(book.best_bid + book.best_ask <= 2 * MAX_PRICE_UNITS);
    }
    let mid: u64 = (book.best_bid + book.best_ask) / 2;
    let depth = match side {
        OrderSide::Buy => calculate_depth_consumed(&book.asks, volume),
        OrderSide::Sell => calculate_depth_consumed(&book.bids, volume),
    };
    proof {
        assert(eff * volume <= MAX_PRICE_UNITS * (u64::MAX as int)) by (nonlinear_arith)
            requires
                0 < eff <= MAX_PRICE_UNITS,
                0 < volume <= u64::MAX,
        ;
    }
    let cost: u128 = (eff as u128) * (volume as u128);
    Ok(
        SlippageAnalysis {
            symbol: symbol.to_owned(),
            mid_price: mid,
            volume,
            side,
            effective_price: eff,
            slippage_percentage: slip,
            depth_consumed: depth,
            total_cost: cost,
        },
    )
}

/// What `SimpleRatio::format_summary` returns.
pub open spec fn spec_simple_summary(r: SimpleRatio) -> Seq<char> {
    r.pair_name@ + ": "@ + spec_scaled_decimal(r.ratio.spec_scaled8() as nat, 8, 8) + " ("@
        + r.symbol_a@ + "=$"@ + spec_scaled_decimal(r.price_a as nat, 8, 2) + " / "@ + r.symbol_b@
        + "=$"@ + spec_scaled_decimal(r.price_b as nat, 8, 2) + ")"@
}

impl SimpleRatio {
    /// One line: pair, ratio to eight decimal places, and the two quotes to
    /// two decimal places.
    pub fn format_summary(&self) -> (s: String)
        requires
            self.wf(),
        ensures
            s@ == spec_simple_summary(*self),
    {
        proof {
            crate::fixed::lemma_pow10_16();
        }
        let mut s = self.pair_name.clone();
        s.append(": ");
        let ratio_text = scaled_decimal(self.ratio.scaled8(), 8, 8);
        s.append(ratio_text.as_str());
        s.append(" (");
        s.append(self.symbol_a.as_str());
        s.append("=$");
        let price_a_text = scaled_decimal(self.price_a as u128, 8, 2);
        s.append(price_a_text.as_str());
        s.append(" / ");
        s.append(self.symbol_b.as_str());
        s.append("=$");
        let price_b_text = scaled_decimal(self.price_b as u128, 8, 2);
        s.append(price_b_text.as_str());
        s.append(")");
        proof {
            assert(s@ =~= spec_simple_summary(*self));
        }
        s
    }

    /// The stored ratio brought to eight decimal places.
    fn scaled8_of_ratio(&self) -> (r: u128)
        requires
            self.wf(),
        ensures
            r == self.ratio.spec_scaled8(),
    {
        self.ratio.scaled8()
    }
}

/// What `VolumeBasedRatio::format_summary` returns.
pub open spec fn spec_volume_summary(r: VolumeBasedRatio) -> Seq<char> {
    r.pair_name@ + ": "@ + spec_scaled_decimal(r.ratio.spec_scaled8() as nat, 8, 8) + " [Vol: "@
        + spec_scaled_decimal(r.volume as nat, 8, 8) + "]\n  "@ + r.symbol_a@ + " eff=$"@
        + spec_scaled_decimal(r.effective_price_a as nat, 8, 2) + " (slippage: "@
        + spec_scaled_decimal(r.slippage_a as nat, 8, 3) + "%)\n  "@ + r.symbol_b@ + " eff=$"@
        + spec_scaled_decimal(r.effective_price_b as nat, 8, 2) + " (slippage: "@
        + spec_scaled_decimal(r.slippage_b as nat, 8, 3) + "%)"@
}

impl VolumeBasedRatio {
    /// A three-line summary: ratio and volume, then each symbol's effective
    /// price and slippage.
    pub fn format_summary(&self) -> (s: String)
        requires
            self.wf(),
            self.slippage_a <= u128::MAX - crate::fixed::pow10(16),
            self.slippage_b <= u128::MAX - crate::fixed::pow10(16),
        ensures
            s@ == spec_volume_summary(*self),
    {
        proof {
            crate::fixed::lemma_pow10_16();
        }
        let mut s = self.pair_name.clone();
        s.append(": ");
        let ratio_text = scaled_decimal(self.ratio.scaled8(), 8, 8);
        s.append(ratio_text.as_str());
        s.append(" [Vol: ");
        let vol_text = scaled_decimal(self.volume as u128, 8, 8);
        s.append(vol_text.as_str());
        s.append("]\n  ");
        s.append(self.symbol_a.as_str());
        s.append(" eff=$");
        let ea_text = scaled_decimal(self.effective_price_a as u128, 8, 2);
        s.append(ea_text.as_str());
        s.append(" (slippage: ");
        let sa_text = scaled_decimal(self.slippage_a, 8, 3);
        s.append(sa_text.as_str());
        s.append("%)\n  ");
        s.append(self.symbol_b.as_str());
        s.append(" eff=$");
        let eb_text = scaled_decimal(self.effective_price_b as u128, 8, 2);
        s.append(eb_text.as_str());
        s.append(" (slippage: ");
        let sb_text = scaled_decimal(self.slippage_b, 8, 3);
        s.append(sb_text.as_str());
        s.append("%)");
        proof {
            assert(s@ =~= spec_volume_summary(*self));
        }
        s
    }
}

/// The display name of a side.
pub open spec fn spec_side_name(side: OrderSide) -> Seq<char> {
    match side {
        OrderSide::Buy => "Buy"@,
        OrderSide::Sell => "Sell"@,
    }
}

/// What `SlippageAnalysis::format_summary` returns.
pub open spec fn spec_slippage_summary(r: SlippageAnalysis) -> Seq<char> {
    r.symbol@ + " "@ + spec_side_name(r.side) + " "@ + spec_scaled_decimal(r.volume as nat, 8, 4)
        + " units:\n  Mid: $"@ + spec_scaled_decimal(r.mid_price as nat, 8, 2)
        + " -> Effective: $"@ + spec_scaled_decimal(r.effective_price as nat, 8, 2)
        + "\n  Slippage: "@ + spec_scaled_decimal(r.slippage_percentage as nat, 8, 3)
        + "%\n  Depth consumed: "@ + crate::fixed::spec_digits(r.depth_consumed as nat)
        + " levels\n  Total cost: $"@ + spec_scaled_decimal(r.total_cost as nat, 16, 2)
}

impl SlippageAnalysis {
    /// A multi-line summary: side and volume, mid against effective price,
    /// slippage, depth consumed and total cost.
    pub fn format_summary(&self) -> (s: String)
        requires
            self.slippage_percentage <= u128::MAX - crate::fixed::pow10(16),
            self.total_cost <= u128::MAX - crate::fixed::pow10(16),
        ensures
            s@ == spec_slippage_summary(*self),
    {
        proof {
            crate::fixed::lemma_pow10_16();
        }
        let mut s = self.symbol.clone();
        s.append(" ");
        let side_text: &str = match self.side {
            OrderSide::Buy => "Buy",
            OrderSide::Sell => "Sell",
        };
        s.append(side_text);
        s.append(" ");
        let vol_text = scaled_decimal(self.volume as u128, 8, 4);
        s.append(vol_text.as_str());
        s.append(" units:\n  Mid: $");
        let mid_text = scaled_decimal(self.mid_price as u128, 8, 2);
        s.append(mid_text.as_str());
        s.append(" -> Effective: $");
        let eff_text = scaled_decimal(self.effective_price as u128, 8, 2);
        s.append(eff_text.as_str());
        s.append("\n  Slippage: ");
        let slip_text = scaled_decimal(self.slippage_percentage, 8, 3);
        s.append(slip_text.as_str());
        s.append("%\n  Depth consumed: ");
        let depth_text = crate::fixed::u64_to_string(self.depth_consumed as u64);
        s.append(depth_text.as_str());
        s.append(" levels\n  Total cost: $");
        let cost_text = scaled_decimal(self.total_cost, 16, 2);
        s.append(cost_text.as_str());
        proof {
            assert(s@ =~= spec_slippage_summary(*self));
        }
        s
    }
}

} // verus!
