use vstd::prelude::*;
use vstd::string::StrSliceExecFns;
use vstd::string::StringExecFns;

use crate::errors::RatioError;
use crate::fixed::{pow10, FRAC_DIGITS, MAX_BOOK_DEPTH, MAX_PRICE_UNITS, MAX_QTY_UNITS, SCALE};

verus! {

/// Raw ticker message shape: the price is still a decimal string.
#[derive(Debug, Clone)]
pub struct TickerPrice {
    pub symbol: String,
    pub price: String,
}

/// Raw order-book message shape: each level is a (price, quantity) pair of
/// decimal strings.
#[derive(Debug, Clone)]
pub struct OrderBook {
    pub last_update_id: u64,
    pub bids: Vec<(String, String)>,
    pub asks: Vec<(String, String)>,
}

/// A symbol's current price in fixed-point units.
#[derive(Debug, Clone)]
pub struct PriceInfo {
    pub symbol: String,
    pub price: u64,
}

/// An order book in fixed-point units. Levels are (price, quantity) pairs,
/// best price first: bids descending, asks ascending.
#[derive(Debug, Clone)]
pub struct OrderBookInfo {
    pub symbol: String,
    pub best_bid: u64,
    pub best_ask: u64,
    pub bids: Vec<(u64, u64)>,
    pub asks: Vec<(u64, u64)>,
}

/// Every level carries a positive price and a positive quantity, both within
/// the library's fixed-point bounds, and the side is not deeper than
/// `MAX_BOOK_DEPTH`.
pub open spec fn wf_levels(levels: Seq<(u64, u64)>) -> bool {
    &&& levels.len() <= MAX_BOOK_DEPTH
    &&& forall|i: int|
        0 <= i < levels.len() ==> {
            &&& 0 < (#[trigger] levels[i]).0 <= MAX_PRICE_UNITS
            &&& 0 < levels[i].1 <= MAX_QTY_UNITS
        }
}

/// Ask levels are ranked best first: strictly increasing by price.
pub open spec fn asks_sorted(levels: Seq<(u64, u64)>) -> bool {
    forall|i: int, j: int|
        0 <= i < j < levels.len() ==> (#[trigger] levels[i]).0 < (#[trigger] levels[j]).0
}

/// Bid levels are ranked best first: strictly decreasing by price.
pub open spec fn bids_sorted(levels: Seq<(u64, u64)>) -> bool {
    forall|i: int, j: int|
        0 <= i < j < levels.len() ==> (#[trigger] levels[i]).0 > (#[trigger] levels[j]).0
}

impl PriceInfo {
    /// A quoted price is positive and within the fixed-point bound.
    pub open spec fn wf(&self) -> bool {
        0 < self.price <= MAX_PRICE_UNITS
    }
}

/// A decimal digit.
pub open spec fn is_digit(c: char) -> bool {
    48 <= c as u32 <= 57
}

/// The numeric value of a digit character.
pub open spec fn digit_val(c: char) -> int {
    c as u32 - 48
}

/// A non-empty run of decimal digits.
pub open spec fn is_digits(s: Seq<char>) -> bool {
    s.len() > 0 && forall|i: int| 0 <= i < s.len() ==> is_digit(#[trigger] s[i])
}

/// The number a run of digits denotes.
pub open spec fn digits_value(s: Seq<char>) -> int
    decreases s.len(),
{
    if s.len() == 0 {
        0
    } else {
        10 * digits_value(s.drop_last()) + digit_val(s.last())
    }
}

/// Does index `i` split `s` into a valid integer part, a dot, and a valid
/// fractional part of at most `FRAC_DIGITS` digits?
pub open spec fn fixed_parts(s: Seq<char>, i: int) -> bool {
    &&& 0 < i < s.len()
    &&& s[i] == '.'
    &&& is_digits(s.subrange(0, i))
    &&& is_digits(s.subrange(i + 1, s.len() as int))
    &&& s.len() - i - 1 <= FRAC_DIGITS
}

/// The decimal grammar the library accepts: digits, or digits, a dot and one
/// to `FRAC_DIGITS` fractional digits.
pub open spec fn is_fixed_text(s: Seq<char>) -> bool {
    is_digits(s) || (exists|i: int| fixed_parts(s, i))
}

/// The fixed-point units a decimal text denotes.
pub open spec fn fixed_units_of(s: Seq<char>) -> int {
    if is_digits(s) {
        digits_value(s) * SCALE
    } else {
        let i = choose|i: int| fixed_parts(s, i);
        digits_value(s.subrange(0, i)) * SCALE + digits_value(s.subrange(i + 1, s.len() as int))
            * pow10((FRAC_DIGITS - (s.len() - i - 1)) as nat)
    }
}

/// A text has at most one valid dot position.
proof fn lemma_fixed_parts_unique(s: Seq<char>, i: int, j: int)
    requires
        fixed_parts(s, i),
        fixed_parts(s, j),
    ensures
        i == j,
{
    if i < j {
        assert(s.subrange(0, j)[i] == s[i]);
        assert(is_digit(s[i]));
        assert('.' as u32 == 46);
    }
    if j < i {
        assert(s.subrange(0, i)[j] == s[j]);
        assert(is_digit(s[j]));
        assert('.' as u32 == 46);
    }
}

/// The value of a digit run is non-negative and below `10^len`.
proof fn lemma_digits_value_range(s: Seq<char>)
    requires
        forall|i: int| 0 <= i < s.len() ==> is_digit(#[trigger] s[i]),
    ensures
        0 <= digits_value(s) < pow10(s.len()),
    decreases s.len(),
{
    if s.len() == 0 {
    } else {
        let rest = s.drop_last();
        lemma_digits_value_range(rest);
        assert(pow10(s.len()) == 10 * pow10(rest.len()));
        assert(0 <= digit_val(s.last()) <= 9);
        assert(10 * digits_value(rest) + digit_val(s.last()) < 10 * pow10(rest.len()))
            by (nonlinear_arith)
            requires
                digits_value(rest) < pow10(rest.len()),
                digit_val(s.last()) <= 9,
        ;
    }
}

/// Extending a digit run to the right never decreases its value.
proof fn lemma_digits_value_prefix(s: Seq<char>, k: int)
    requires
        0 <= k <= s.len(),
        forall|i: int| 0 <= i < s.len() ==> is_digit(#[trigger] s[i]),
    ensures
        digits_value(s.take(k)) <= digits_value(s),
    decreases s.len() - k,
{
    if k == s.len() {
        assert(s.take(k) =~= s);
    } else {
        lemma_digits_value_prefix(s, k + 1);
        let t = s.take(k + 1);
        assert(t.drop_last() =~= s.take(k));
        assert(is_digit(s[k]));
        assert(digits_value(s.take(k)) >= 0 && digits_value(t.drop_last()) >= 0) by {
            lemma_digits_value_range(s.take(k));
        }
        assert(10 * digits_value(t.drop_last()) + digit_val(t.last()) >= digits_value(
            t.drop_last(),
        )) by (nonlinear_arith)
            requires
                digits_value(t.drop_last()) >= 0,
                digit_val(t.last()) >= 0,
        ;
    }
}

/// Is the character at `i` a decimal digit?
fn is_digit_char(s: &str, i: usize) -> (b: bool)
    requires
        i < s@.len(),
    ensures
        b == is_digit(s@[i as int]),
{
    let u: u32 = s.get_char(i) as u32;
    48 <= u && u <= 57
}

/// Parse a decimal text into fixed-point units: accepts exactly the texts of
/// `is_fixed_text` whose value fits in 64 bits.
pub fn parse_fixed(s: &str) -> (r: Option<u64>)
    ensures
        r is Some <==> is_fixed_text(s@) && fixed_units_of(s@) <= u64::MAX,
        r is Some ==> r->0 == fixed_units_of(s@),
{
    let ghost sv = s@;
    let n: usize = s.unicode_len();
    if n == 0 {
        return None;
    }
    let mut int_val: u128 = 0;
    let mut i: usize = 0;
    while i < n && is_digit_char(s, i)
        invariant
            sv == s@,
            n == sv.len(),
            i <= n,
            forall|k: int| 0 <= k < i ==> is_digit(#[trigger] sv[k]),
            int_val == digits_value(sv.take(i as int)),
            int_val <= u64::MAX,
        decreases n - i,
    {
        let c = s.get_char(i);
        let u: u32 = c as u32;
        proof {
            assert(sv.take(i + 1).drop_last() =~= sv.take(i as int));
            assert(sv.take(i + 1).last() == sv[i as int]);
        }
        int_val = int_val * 10 + ((u - 48) as u128);
        i = i + 1;
        if int_val > u64::MAX as u128 {
            proof {
                lemma_int_overflow_invalid(sv, i as int, int_val as int);
            }
            return None;
        }
    }
    if i == 0 {
        // the first character is not a digit: no valid reading exists
        proof {
            assert(!is_digits(sv));
            assert forall|j: int| !fixed_parts(sv, j) by {
                if 0 < j < sv.len() {
                    if fixed_parts(sv, j) {
                        assert(sv.subrange(0, j)[0] == sv[0]);
                        assert('.' as u32 == 46);
                    }
                }
            }
        }
        return None;
    }
    if i == n {
        // all digits: a whole number of units
        proof {
            assert(sv.take(n as int) =~= sv);
            assert(is_digits(sv));
        }
        let units: u128 = int_val * (SCALE as u128);
        if units > u64::MAX as u128 {
            return None;
        }
        return Some(units as u64);
    }
    // a non-digit stopped the scan: it must be the dot
    let c = s.get_char(i);
    if !(c as u32 == 46) {
        proof {
            assert('.' as u32 == 46);
            assert(!is_digit(sv[i as int]));
            assert(!is_digits(sv));
            assert forall|j: int| !fixed_parts(sv, j) by {
                if fixed_parts(sv, j) {
                    if j == i {
                        assert(sv[j] == '.');
                    } else if i < j {
                        assert(sv.subrange(0, j)[i as int] == sv[i as int]);
                    } else {
                        assert(sv.subrange(j + 1, sv.len() as int)[i - j - 1] == sv[i as int]);
                    }
                }
            }
        }
        return None;
    }
    let dot: usize = i;
    proof {
        assert(sv[dot as int] == '.') by {
            assert(sv[dot as int] as u32 == 46);
            assert('.' as u32 == 46);
        }
    }
    i = i + 1;
    let mut frac_val: u128 = 0;
    while i < n && is_digit_char(s, i)
        invariant
            sv == s@,
            n == sv.len(),
            0 < dot,
            dot < i <= n,
            sv[dot as int] == '.',
            forall|k: int| 0 <= k < dot ==> is_digit(#[trigger] sv[k]),
            forall|k: int| dot < k < i ==> is_digit(#[trigger] sv[k]),
            i - dot - 1 <= FRAC_DIGITS,
            frac_val == digits_value(sv.subrange(dot + 1, i as int)),
            frac_val < pow10((i - dot - 1) as nat),
            int_val == digits_value(sv.take(dot as int)),
            int_val <= u64::MAX,
        decreases n - i,
    {
        let c = s.get_char(i);
        let u: u32 = c as u32;
        if i - dot - 1 >= 8 {
            // a ninth fractional digit: the fractional part is too long
            proof {
                lemma_only_dot_splits(sv, dot as int);
                assert(!fixed_parts(sv, dot as int));
                assert(!is_digits(sv)) by {
                    assert(!is_digit(sv[dot as int]));
                    assert('.' as u32 == 46);
                }
            }
            return None;
        }
        proof {
            assert(sv.subrange(dot + 1, i + 1).drop_last() =~= sv.subrange(dot + 1, i as int));
            assert(sv.subrange(dot + 1, i + 1).last() == sv[i as int]);
            crate::fixed::lemma_pow10_le((i - dot - 1) as nat, 8);
            crate::fixed::lemma_pow10_8();
            assert(pow10((i - dot) as nat) == 10 * pow10((i - dot - 1) as nat));
            assert(frac_val * 10 + (u - 48) < pow10((i - dot) as nat)) by (nonlinear_arith)
                requires
                    frac_val < pow10((i - dot - 1) as nat),
                    u - 48 <= 9,
                    pow10((i - dot) as nat) == 10 * pow10((i - dot - 1) as nat),
            ;
        }
        frac_val = frac_val * 10 + ((u - 48) as u128);
        i = i + 1;
    }
    if i < n {
        // a second non-digit: the only split candidate is `dot`, and the
        // fractional part there is not all digits
        proof {
            lemma_only_dot_splits(sv, dot as int);
            assert(!fixed_parts(sv, dot as int)) by {
                if fixed_parts(sv, dot as int) {
                    assert(sv.subrange(dot + 1, sv.len() as int)[i - dot - 1] == sv[i as int]);
                }
            }
            assert(!is_digits(sv)) by {
                assert(!is_digit(sv[i as int]));
            }
        }
        return None;
    }
    if i == dot + 1 {
        // "123." with nothing after the dot
        proof {
            lemma_only_dot_splits(sv, dot as int);
            assert(!fixed_parts(sv, dot as int));
            assert(!is_digits(sv)) by {
                assert(!is_digit(sv[dot as int]));
                assert('.' as u32 == 46);
            }
        }
        return None;
    }
    let frac_len: usize = i - dot - 1;
    proof {
        assert(fixed_parts(sv, dot as int)) by {
            assert(sv.subrange(0, dot as int) =~= sv.take(dot as int));
            assert(is_digits(sv.subrange(0, dot as int)));
            assert(is_digits(sv.subrange(dot + 1, sv.len() as int)));
        }
        let j = choose|j: int| fixed_parts(sv, j);
        lemma_fixed_parts_unique(sv, j, dot as int);
        assert(!is_digits(sv)) by {
            assert(!is_digit(sv[dot as int]));
            assert('.' as u32 == 46);
        }
        crate::fixed::lemma_pow10_le((FRAC_DIGITS - frac_len) as nat, 8);
        crate::fixed::lemma_pow10_8();
        lemma_digits_value_range(sv.subrange(dot + 1, sv.len() as int));
        crate::fixed::lemma_pow10_pos((FRAC_DIGITS - frac_len) as nat);
    }
    let mult: u64 = crate::fixed::pow10_u64(8 - (frac_len as u64));
    proof {
        assert(frac_val * mult < pow10(frac_len as nat) * pow10((FRAC_DIGITS - frac_len) as nat))
            by (nonlinear_arith)
            requires
                0 <= frac_val < pow10(frac_len as nat),
                mult == pow10((FRAC_DIGITS - frac_len) as nat),
                mult >= 1,
        ;
        lemma_pow10_mul(frac_len as nat, (FRAC_DIGITS - frac_len) as nat);
    }
    let frac_units: u128 = frac_val * (mult as u128);
    proof {
        assert(int_val * SCALE <= u64::MAX * SCALE) by (nonlinear_arith)
            requires
                0 <= int_val <= u64::MAX,
                SCALE > 0,
        ;
    }
    let units: u128 = int_val * (SCALE as u128) + frac_units;
    if units > u64::MAX as u128 {
        return None;
    }
    proof {
        assert(sv.subrange(0, dot as int) =~= sv.take(dot as int));
    }
    Some(units as u64)
}

/// `10^a * 10^b == 10^(a+b)`.
proof fn lemma_pow10_mul(a: nat, b: nat)
    ensures
        pow10(a) * pow10(b) == pow10(a + b),
    decreases a,
{
    if a == 0 {
        assert(pow10(0) * pow10(b) == pow10(b)) by (nonlinear_arith)
            requires
                pow10(0) == 1,
        ;
    } else {
        lemma_pow10_mul((a - 1) as nat, b);
        assert(pow10(a) * pow10(b) == 10 * (pow10((a - 1) as nat) * pow10(b))) by (nonlinear_arith)
            requires
                pow10(a) == 10 * pow10((a - 1) as nat),
        ;
    }
}

/// When a digit prefix already exceeds what 64 bits can hold, no valid
/// reading of the whole text fits either.
proof fn lemma_int_overflow_invalid(s: Seq<char>, i: int, val: int)
    requires
        0 < i <= s.len(),
        forall|k: int| 0 <= k < i ==> is_digit(#[trigger] s[k]),
        val == digits_value(s.take(i)),
        val > u64::MAX,
    ensures
        is_fixed_text(s) ==> fixed_units_of(s) > u64::MAX,
{
    if is_digits(s) {
        lemma_digits_value_prefix(s, i);
        assert(s.take(s.len() as int) =~= s);
        assert(digits_value(s) >= val);
        assert(digits_value(s) * SCALE >= digits_value(s)) by (nonlinear_arith)
            requires
                digits_value(s) >= 0,
                SCALE >= 1,
        ;
    } else if is_fixed_text(s) {
        let j = choose|j: int| fixed_parts(s, j);
        let ip = s.subrange(0, j);
        // the dot sits at or after the scanned prefix, which is all digits
        assert(j >= i) by {
            if j < i {
                assert(is_digit(s[j]));
                assert('.' as u32 == 46);
            }
        }
        assert(ip.take(i) =~= s.take(i));
        lemma_digits_value_prefix(ip, i);
        assert(digits_value(ip) >= val);
        lemma_digits_value_range(s.subrange(j + 1, s.len() as int));
        crate::fixed::lemma_pow10_pos((FRAC_DIGITS - (s.len() - j - 1)) as nat);
        assert(digits_value(ip) * SCALE >= digits_value(ip)) by (nonlinear_arith)
            requires
                digits_value(ip) >= 0,
                SCALE >= 1,
        ;
        assert(digits_value(s.subrange(j + 1, s.len() as int)) * pow10(
            (FRAC_DIGITS - (s.len() - j - 1)) as nat,
        ) >= 0) by (nonlinear_arith)
            requires
                digits_value(s.subrange(j + 1, s.len() as int)) >= 0,
                pow10((FRAC_DIGITS - (s.len() - j - 1)) as nat) >= 0,
        ;
    }
}

/// What a price text must satisfy to become a quote: inside the decimal
/// grammar, positive, and within the price bound.
pub open spec fn price_text_ok(s: Seq<char>) -> bool {
    is_fixed_text(s) && 0 < fixed_units_of(s) <= MAX_PRICE_UNITS
}

/// Turn a raw ticker into a fixed-point quote. A price text outside the
/// decimal grammar, zero, or beyond the price bound is rejected as a parse
/// failure.
pub fn parse_price(ticker: &TickerPrice) -> (r: Result<PriceInfo, RatioError>)
    ensures
        r is Ok <==> price_text_ok(ticker.price@),
        r is Ok ==> r->Ok_0.symbol@ == ticker.symbol@ && r->Ok_0.price == fixed_units_of(
            ticker.price@,
        ) && r->Ok_0.wf(),
        r is Err ==> (r->Err_0 matches RatioError::Parse(m) && m@ == "invalid price value: "@
            + ticker.price@),
{
    match parse_fixed(ticker.price.as_str()) {
        Some(units) if 0 < units && units <= MAX_PRICE_UNITS => Ok(
            PriceInfo { symbol: ticker.symbol.clone(), price: units },
        ),
        _ => {
            let mut m = "invalid price value: ".to_owned();
            m.append(ticker.price.as_str());
            Err(RatioError::Parse(m))
        },
    }
}

/// What one raw level must satisfy: a price and a quantity inside the decimal
/// grammar, positive, and within the fixed-point bounds.
pub open spec fn level_text_ok(l: (String, String)) -> bool {
    &&& is_fixed_text(l.0@) && 0 < fixed_units_of(l.0@) <= MAX_PRICE_UNITS
    &&& is_fixed_text(l.1@) && 0 < fixed_units_of(l.1@) <= MAX_QTY_UNITS
}

/// The fixed-point reading of one raw level.
pub open spec fn level_units(l: (String, String)) -> (u64, u64) {
    (fixed_units_of(l.0@) as u64, fixed_units_of(l.1@) as u64)
}

/// The reading of a level, as a function value for `map_values`.
pub open spec fn level_units_fn() -> spec_fn((String, String)) -> (u64, u64) {
    |l: (String, String)| level_units(l)
}

/// What one raw side must satisfy: within the depth bound, every level
/// readable and in range, and ranked best first.
pub open spec fn side_ok(side: Seq<(String, String)>, descending: bool) -> bool {
    &&& side.len() <= MAX_BOOK_DEPTH
    &&& forall|i: int| 0 <= i < side.len() ==> level_text_ok(#[trigger] side[i])
    &&& if descending {
        bids_sorted(side.map_values(level_units_fn()))
    } else {
        asks_sorted(side.map_values(level_units_fn()))
    }
}

/// A raw order book the library accepts: bids descending, asks ascending.
pub open spec fn book_ok(book: OrderBook) -> bool {
    side_ok(book.bids@, true) && side_ok(book.asks@, false)
}

/// Read one raw side into fixed-point levels, validating range and ranking.
fn parse_side(levels: &Vec<(String, String)>, descending: bool) -> (r: Option<Vec<(u64, u64)>>)
    ensures
        r is Some <==> side_ok(levels@, descending),
        r is Some ==> r->0@ == levels@.map_values(level_units_fn()) && wf_levels(r->0@),
{
    let ghost lseq = levels@;
    let ghost f = level_units_fn();
    let ghost mapped = lseq.map_values(f);
    if levels.len() > MAX_BOOK_DEPTH {
        return None;
    }
    let mut out: Vec<(u64, u64)> = Vec::new();
    let mut i: usize = 0;
    proof {
        assert(lseq.take(0).map_values(f) =~= Seq::<(u64, u64)>::empty());
    }
    while i < levels.len()
        invariant
            lseq == levels@,
            mapped == lseq.map_values(f),
            f == level_units_fn(),
            i <= lseq.len(),
            lseq.len() <= MAX_BOOK_DEPTH,
            out@ == lseq.take(i as int).map_values(f),
            out@.len() == i,
            forall|k: int| 0 <= k < i ==> level_text_ok(#[trigger] lseq[k]),
            wf_levels(out@),
            descending ==> bids_sorted(out@),
            !descending ==> asks_sorted(out@),
        decreases lseq.len() - i,
    {
        let level = &levels[i];
        let p_opt = parse_fixed(level.0.as_str());
        let q_opt = parse_fixed(level.1.as_str());
        let p: u64 = match p_opt {
            Some(p) if 0 < p && p <= MAX_PRICE_UNITS => p,
            _ => {
                proof {
                    assert(!level_text_ok(lseq[i as int]));
                }
                return None;
            },
        };
        let q: u64 = match q_opt {
            Some(q) if 0 < q && q <= MAX_QTY_UNITS => q,
            _ => {
                proof {
                    assert(!level_text_ok(lseq[i as int]));
                }
                return None;
            },
        };
        proof {
            assert(mapped[i as int] == f(lseq[i as int]));
            assert(mapped[i as int] == (p, q));
        }
        if i > 0 {
            let prev: u64 = out[i - 1].0;
            proof {
                assert(out@[i - 1] == mapped[i - 1]);
            }
            if descending {
                if !(p < prev) {
                    proof {
                        assert(!bids_sorted(mapped));
                    }
                    return None;
                }
            } else {
                if !(p > prev) {
                    proof {
                        assert(!asks_sorted(mapped));
                    }
                    return None;
                }
            }
        }
        let ghost out0 = out@;
        out.push((p, q));
        i = i + 1;
        proof {
            assert(out@ =~= lseq.take(i as int).map_values(f)) by {
                assert(forall|k: int| 0 <= k < i - 1 ==> out@[k] == out0[k]);
                assert(forall|k: int|
                    0 <= k < i ==> lseq.take(i as int).map_values(f)[k] == f(lseq[k]));
                assert(forall|k: int|
                    0 <= k < i - 1 ==> lseq.take((i - 1) as int).map_values(f)[k] == f(lseq[k]));
            }
            if descending {
                assert(bids_sorted(out@)) by {
                    assert(forall|a: int|
                        0 <= a < out0.len() - 1 ==> (#[trigger] out0[a]).0 > out0[out0.len()
                            - 1].0 || out0.len() <= 1);
                }
            } else {
                assert(asks_sorted(out@)) by {
                    assert(forall|a: int|
                        0 <= a < out0.len() - 1 ==> (#[trigger] out0[a]).0 < out0[out0.len()
                            - 1].0 || out0.len() <= 1);
                }
            }
        }
    }
    proof {
        assert(lseq.take(lseq.len() as int) =~= lseq);
    }
    Some(out)
}

/// Read a raw order book into fixed-point levels, checking that both sides
/// are readable, in range, and ranked best first; cache each side's best
/// price (zero on an empty side). A malformed book is rejected as a parse
/// failure.
pub fn parse_order_book(symbol: &str, book: &OrderBook) -> (r: Result<OrderBookInfo, RatioError>)
    ensures
        r is Ok <==> book_ok(*book),
        r is Ok ==> ({
            let b = r->Ok_0;
            &&& b.symbol@ == symbol@
            &&& b.bids@ == book.bids@.map_values(level_units_fn())
            &&& b.asks@ == book.asks@.map_values(level_units_fn())
            &&& b.wf()
        }),
        r is Err ==> (r->Err_0 matches RatioError::Parse(m) && m@ == "invalid order book for "@
            + symbol@),
{
    let bids = parse_side(&book.bids, true);
    let asks = parse_side(&book.asks, false);
    match (bids, asks) {
        (Some(bids), Some(asks)) => {
            let best_bid: u64 = if bids.len() > 0 {
                bids[0].0
            } else {
                0
            };
            let best_ask: u64 = if asks.len() > 0 {
                asks[0].0
            } else {
                0
            };
            Ok(
                OrderBookInfo {
                    symbol: symbol.to_owned(),
                    best_bid,
                    best_ask,
                    bids,
                    asks,
                },
            )
        },
        _ => {
            let mut m = "invalid order book for ".to_owned();
            m.append(symbol);
            Err(RatioError::Parse(m))
        },
    }
}

/// Once a dot has been seen with digits before it, any valid split of the
/// text must sit exactly at that dot.
proof fn lemma_only_dot_splits(s: Seq<char>, dot: int)
    requires
        0 < dot < s.len(),
        s[dot] == '.',
        forall|k: int| 0 <= k < dot ==> is_digit(#[trigger] s[k]),
    ensures
        forall|j: int| j != dot ==> !fixed_parts(s, j),
{
    assert forall|j: int| j != dot implies !fixed_parts(s, j) by {
        if fixed_parts(s, j) {
            if dot < j {
                assert(s.subrange(0, j)[dot] == s[dot]);
                assert('.' as u32 == 46);
            } else if j < dot {
                assert(s.subrange(j + 1, s.len() as int)[dot - j - 1] == s[dot]);
                assert('.' as u32 == 46);
            }
        }
    }
}

impl OrderBookInfo {
    /// Both sides are well-formed and ranked best first, and each cached best
    /// price is the first level of its side (zero on an empty side).
    pub open spec fn wf(&self) -> bool {
        &&& wf_levels(self.bids@)
        &&& wf_levels(self.asks@)
        &&& bids_sorted(self.bids@)
        &&& asks_sorted(self.asks@)
        &&& self.best_bid == (if self.bids@.len() > 0 {
            self.bids@[0].0
        } else {
            0u64
        })
        &&& self.best_ask == (if self.asks@.len() > 0 {
            self.asks@[0].0
        } else {
            0u64
        })
    }
}

} // verus!
