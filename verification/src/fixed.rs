use vstd::prelude::*;

verus! {

/// Number of fractional decimal digits carried by every fixed-point amount.
pub const FRAC_DIGITS: u64 = 8;

/// One whole unit in fixed-point representation: `10^FRAC_DIGITS`.
pub const SCALE: u64 = 100_000_000;

/// Largest price the library accepts, in fixed-point units
/// (one hundred million whole units).
pub const MAX_PRICE_UNITS: u64 = 10_000_000_000_000_000;

/// Largest per-level quantity the library accepts, in fixed-point units.
pub const MAX_QTY_UNITS: u64 = 10_000_000_000_000_000;

/// Largest number of levels an order book side may carry.
pub const MAX_BOOK_DEPTH: usize = 1000;

pub open spec fn pow10(n: nat) -> nat
    decreases n,
{
    if n == 0 {
        1
    } else {
        10 * pow10((n - 1) as nat)
    }
}

pub proof fn lemma_pow10_16()
    ensures
        pow10(16) == 10_000_000_000_000_000,
{
    reveal_with_fuel(pow10, 17);
}

pub proof fn lemma_pow10_8()
    ensures
        pow10(8) == 100_000_000,
{
    reveal_with_fuel(pow10, 9);
}

pub proof fn lemma_pow10_pos(n: nat)
    ensures
        pow10(n) >= 1,
    decreases n,
{
    if n > 0 {
        lemma_pow10_pos((n - 1) as nat);
    }
}

pub proof fn lemma_pow10_le(a: nat, b: nat)
    requires
        a <= b,
    ensures
        pow10(a) <= pow10(b),
    decreases b,
{
    if a < b {
        lemma_pow10_le(a, (b - 1) as nat);
        lemma_pow10_pos((b - 1) as nat);
    }
}

/// The character for one decimal digit.
pub open spec fn digit_char(d: nat) -> char {
    if d == 0 {
        '0'
    } else if d == 1 {
        '1'
    } else if d == 2 {
        '2'
    } else if d == 3 {
        '3'
    } else if d == 4 {
        '4'
    } else if d == 5 {
        '5'
    } else if d == 6 {
        '6'
    } else if d == 7 {
        '7'
    } else if d == 8 {
        '8'
    } else {
        '9'
    }
}

/// The usual decimal rendering of a natural number, most significant digit
/// first, with no leading zeros (zero itself is "0").
pub open spec fn spec_digits(n: nat) -> Seq<char>
    decreases n,
{
    if n < 10 {
        seq![digit_char(n)]
    } else {
        spec_digits(n / 10).push(digit_char(n % 10))
    }
}

/// Decimal rendering of `n % 10^width`, zero-padded to exactly `width`
/// characters.
pub open spec fn spec_padded(n: nat, width: nat) -> Seq<char>
    decreases width,
{
    if width == 0 {
        Seq::empty()
    } else {
        spec_padded(n / 10, (width - 1) as nat).push(digit_char(n % 10))
    }
}

/// The characters of a digit list read back to front: the list stores the
/// least significant digit first.
pub open spec fn chars_rev(ds: Seq<u64>) -> Seq<char>
    decreases ds.len(),
{
    if ds.len() == 0 {
        Seq::empty()
    } else {
        seq![digit_char(ds.last() as nat)] + chars_rev(ds.drop_last())
    }
}

proof fn lemma_chars_rev_prepend(x: u64, ds: Seq<u64>)
    ensures
        chars_rev(seq![x] + ds) == chars_rev(ds) + seq![digit_char(x as nat)],
    decreases ds.len(),
{
    let s = seq![x] + ds;
    if ds.len() == 0 {
        reveal_with_fuel(chars_rev, 3);
        assert(s.drop_last() =~= Seq::<u64>::empty());
        assert(s.last() == x);
        assert(chars_rev(s) =~= chars_rev(ds) + seq![digit_char(x as nat)]);
    } else {
        assert(s.last() == ds.last());
        assert(s.drop_last() =~= seq![x] + ds.drop_last());
        lemma_chars_rev_prepend(x, ds.drop_last());
        assert(chars_rev(s) =~= chars_rev(ds) + seq![digit_char(x as nat)]);
    }
}

/// The one-character string for a decimal digit.
fn digit_str(d: u64) -> (s: &'static str)
    requires
        d < 10,
    ensures
        s@ == seq![digit_char(d as nat)],
{
    proof {
        reveal_strlit("0");
        reveal_strlit("1");
        reveal_strlit("2");
        reveal_strlit("3");
        reveal_strlit("4");
        reveal_strlit("5");
        reveal_strlit("6");
        reveal_strlit("7");
        reveal_strlit("8");
        reveal_strlit("9");
    }
    let s = match d {
        0 => "0",
        1 => "1",
        2 => "2",
        3 => "3",
        4 => "4",
        5 => "5",
        6 => "6",
        7 => "7",
        8 => "8",
        _ => "9",
    };
    proof {
        assert(s@ =~= seq![digit_char(d as nat)]);
    }
    s
}

/// Append the digits of a least-significant-first digit list to a string,
/// back to front.
fn append_digits_rev(s: &mut String, digits: &Vec<u64>)
    requires
        forall|k: int| 0 <= k < digits@.len() ==> (#[trigger] digits@[k]) < 10,
    ensures
        final(s)@ == old(s)@ + chars_rev(digits@),
{
    let ghost dseq = digits@;
    let ghost len = dseq.len() as int;
    let mut idx: usize = digits.len();
    proof {
        assert(dseq.subrange(len, len) =~= Seq::<u64>::empty());
    }
    while idx > 0
        invariant
            dseq == digits@,
            len == dseq.len() as int,
            idx <= digits@.len(),
            forall|k: int| 0 <= k < dseq.len() ==> (#[trigger] dseq[k]) < 10,
            s@ == old(s)@ + chars_rev(dseq.subrange(idx as int, len)),
        decreases idx,
    {
        idx = idx - 1;
        let d = digits[idx];
        s.append(digit_str(d));
        proof {
            lemma_chars_rev_prepend(d, dseq.subrange(idx + 1, len));
            assert(seq![dseq[idx as int]] + dseq.subrange(idx + 1, len) =~= dseq.subrange(
                idx as int,
                len,
            ));
            assert(s@ =~= old(s)@ + chars_rev(dseq.subrange(idx as int, len)));
        }
    }
    proof {
        assert(dseq.subrange(0, len) =~= dseq);
    }
}

/// Decimal rendering of an unsigned number.
pub fn u128_to_string(n: u128) -> (s: String)
    ensures
        s@ == spec_digits(n as nat),
{
    let mut digits: Vec<u64> = Vec::new();
    let mut m: u128 = n;
    while m >= 10
        invariant
            spec_digits(n as nat) == spec_digits(m as nat) + chars_rev(digits@),
            forall|k: int| 0 <= k < digits@.len() ==> (#[trigger] digits@[k]) < 10,
        decreases m,
    {
        let ghost digits0 = digits@;
        let ghost m0 = m as nat;
        let d: u64 = (m % 10) as u64;
        digits.push(d);
        m = m / 10;
        proof {
            assert(digits@.last() == d);
            assert(digits@.drop_last() =~= digits0);
            assert(spec_digits(m0) == spec_digits(m0 / 10).push(digit_char(m0 % 10)));
            assert(chars_rev(digits@) == seq![digit_char(d as nat)] + chars_rev(digits0));
            assert(spec_digits(m0).push(digit_char(m0 % 10)) =~= spec_digits(m0) + seq![
                digit_char(m0 % 10),
            ]);
            assert(spec_digits(n as nat) =~= spec_digits(m as nat) + chars_rev(digits@));
        }
    }
    let ghost digits0 = digits@;
    let last: u64 = m as u64;
    digits.push(last);
    proof {
        assert(digits@.drop_last() =~= digits0);
        assert(chars_rev(digits@) == seq![digit_char(last as nat)] + chars_rev(digits0));
        assert(spec_digits(m as nat) == seq![digit_char(m as nat)]);
        assert(spec_digits(n as nat) =~= chars_rev(digits@));
    }
    let mut s = String::new();
    append_digits_rev(&mut s, &digits);
    proof {
        assert(s@ =~= spec_digits(n as nat));
    }
    s
}

/// Decimal rendering of an unsigned 64-bit number.
pub fn u64_to_string(n: u64) -> (s: String)
    ensures
        s@ == spec_digits(n as nat),
{
    u128_to_string(n as u128)
}

/// Zero-padded rendering of `n % 10^width` to exactly `width` digits.
pub fn padded_to_string(n: u128, width: u64) -> (s: String)
    ensures
        s@ == spec_padded(n as nat, width as nat),
{
    let mut digits: Vec<u64> = Vec::new();
    let mut m: u128 = n;
    let mut w: u64 = width;
    while w > 0
        invariant
            spec_padded(n as nat, width as nat) == spec_padded(m as nat, w as nat) + chars_rev(
                digits@,
            ),
            forall|k: int| 0 <= k < digits@.len() ==> (#[trigger] digits@[k]) < 10,
        decreases w,
    {
        let ghost digits0 = digits@;
        let ghost m0 = m as nat;
        let ghost w0 = w as nat;
        let d: u64 = (m % 10) as u64;
        digits.push(d);
        m = m / 10;
        w = w - 1;
        proof {
            assert(digits@.drop_last() =~= digits0);
            assert(chars_rev(digits@) == seq![digit_char(d as nat)] + chars_rev(digits0));
            assert(spec_padded(m0, w0) == spec_padded(m0 / 10, (w0 - 1) as nat).push(
                digit_char(m0 % 10),
            ));
            assert(spec_padded(m0, w0) =~= spec_padded(m as nat, w as nat) + seq![
                digit_char(m0 % 10),
            ]);
            assert(spec_padded(n as nat, width as nat) =~= spec_padded(m as nat, w as nat)
                + chars_rev(digits@));
        }
    }
    let mut s = String::new();
    append_digits_rev(&mut s, &digits);
    proof {
        assert(s@ =~= spec_padded(n as nat, width as nat));
    }
    s
}

/// `10^e` for small exponents.
pub fn pow10_u64(e: u64) -> (r: u64)
    requires
        e <= 16,
    ensures
        r == pow10(e as nat),
{
    let mut r: u64 = 1;
    let mut k: u64 = 0;
    while k < e
        invariant
            k <= e,
            e <= 16,
            r == pow10(k as nat),
        decreases e - k,
    {
        proof {
            lemma_pow10_le((k + 1) as nat, 16);
            lemma_pow10_16();
            assert(pow10((k + 1) as nat) == 10 * pow10(k as nat));
        }
        r = r * 10;
        k = k + 1;
    }
    r
}

/// What `scaled_decimal` renders: the amount `units / 10^scale_digits`,
/// rounded half-up to `frac_digits` fractional digits, written as an integer
/// part, and, if `frac_digits > 0`, a dot and the zero-padded fraction.
pub open spec fn spec_scaled_decimal(units: nat, scale_digits: nat, frac_digits: nat) -> Seq<
    char,
> {
    let d = pow10((scale_digits - frac_digits) as nat);
    let t = (units + d / 2) / d;
    let ip = t / pow10(frac_digits);
    let fp = t % pow10(frac_digits);
    if frac_digits == 0 {
        spec_digits(ip)
    } else {
        spec_digits(ip) + seq!['.'] + spec_padded(fp, frac_digits)
    }
}

/// Render a fixed-point amount held at `scale_digits` decimal places with
/// `frac_digits` fractional digits, rounding half-up at the cut.
pub fn scaled_decimal(units: u128, scale_digits: u64, frac_digits: u64) -> (s: String)
    requires
        frac_digits <= scale_digits,
        scale_digits <= 16,
        units <= u128::MAX - pow10(16),
    ensures
        s@ == spec_scaled_decimal(units as nat, scale_digits as nat, frac_digits as nat),
{
    proof {
        lemma_pow10_le((scale_digits - frac_digits) as nat, 16);
        lemma_pow10_le(frac_digits as nat, 16);
        lemma_pow10_16();
        lemma_pow10_pos((scale_digits - frac_digits) as nat);
        lemma_pow10_pos(frac_digits as nat);
    }
    let d: u64 = pow10_u64(scale_digits - frac_digits);
    let t: u128 = (units + (d / 2) as u128) / (d as u128);
    let fpow: u64 = pow10_u64(frac_digits);
    let ip: u128 = t / (fpow as u128);
    let fp: u128 = t % (fpow as u128);
    let mut s = u128_to_string(ip);
    if frac_digits > 0 {
        proof {
            reveal_strlit(".");
            assert("."@ =~= seq!['.']);
        }
        s.append(".");
        let frac = padded_to_string(fp, frac_digits);
        s.append(frac.as_str());
    }
    proof {
        assert(s@ =~= spec_scaled_decimal(units as nat, scale_digits as nat, frac_digits as nat));
    }
    s
}

} // verus!

