use vstd::prelude::*;
use vstd::string::StringExecFns;
use vstd::string::StrSliceExecFns;

use crate::config::{Config, RatioPair};
use crate::fixed::{
    padded_to_string, scaled_decimal, spec_digits, spec_padded, spec_scaled_decimal,
    u128_to_string,
};
use crate::ratio::{Ratio, SimpleRatio};

verus! {

/// The last second of year 9999: timestamps the library renders stay within
/// the calendar the formatting collaborator supports.
pub const MAX_UTC_SECS: u64 = 253_402_300_799;

/// The text `%Y-%m-%d %H:%M:%S UTC` formatting renders for a second count
/// since the epoch. The count alone decides it.
pub uninterp spec fn utc_datetime_text(secs: int) -> Seq<char>;

/// Relies on chrono's `DateTime::<Utc>::from_timestamp` (total for second
/// counts up to year 9999) and its strftime-style formatting with the fixed
/// format `%Y-%m-%d %H:%M:%S UTC`: the rendered UTC text is a pure function
/// of the second count, with no locale or time-zone input.
#[verifier::external_body]
fn format_utc(secs: u64) -> (r: String)
    requires
        secs <= MAX_UTC_SECS,
    ensures
        r@ == utc_datetime_text(secs as int),
{
    let dt = chrono::DateTime::<chrono::Utc>::from_timestamp(secs as i64, 0).unwrap();
    dt.format("%Y-%m-%d %H:%M:%S UTC").to_string()
}

/// The characters Telegram's MarkdownV2 wants escaped.
pub open spec fn needs_escape(c: char) -> bool {
    ||| c == '_'
    ||| c == '*'
    ||| c == '['
    ||| c == ']'
    ||| c == '('
    ||| c == ')'
    ||| c == '~'
    ||| c == '`'
    ||| c == '>'
    ||| c == '#'
    ||| c == '+'
    ||| c == '-'
    ||| c == '='
    ||| c == '|'
    ||| c == '{'
    ||| c == '}'
    ||| c == '.'
    ||| c == '!'
}

/// The input with a backslash before every character that wants escaping.
pub open spec fn spec_escaped(s: Seq<char>) -> Seq<char>
    decreases s.len(),
{
    if s.len() == 0 {
        Seq::empty()
    } else {
        spec_escaped(s.drop_last()) + (if needs_escape(s.last()) {
            seq!['\\', s.last()]
        } else {
            seq![s.last()]
        })
    }
}

fn char_needs_escape(c: char) -> (b: bool)
    ensures
        b == needs_escape(c),
{
    match c {
        '_' | '*' | '[' | ']' | '(' | ')' | '~' | '`' | '>' | '#' | '+' | '-' | '=' | '|' | '{'
            | '}' | '.' | '!' => true,
        _ => false,
    }
}

/// Escape a text for Telegram's MarkdownV2.
pub fn escape_markdown(text: &str) -> (r: String)
    ensures
        r@ == spec_escaped(text@),
{
    let ghost tv = text@;
    let n: usize = text.unicode_len();
    let mut out = String::new();
    let mut i: usize = 0;
    proof {
        assert(tv.take(0) =~= Seq::<char>::empty());
    }
    while i < n
        invariant
            tv == text@,
            n == tv.len(),
            i <= n,
            out@ == spec_escaped(tv.take(i as int)),
        decreases n - i,
    {
        let c = text.get_char(i);
        proof {
            reveal_strlit("\\");
        }
        if char_needs_escape(c) {
            out.append("\\");
        }
        let piece = text.substring_char(i, i + 1);
        out.append(piece);
        proof {
            assert(tv.take(i + 1).drop_last() =~= tv.take(i as int));
            assert(tv.take(i + 1).last() == tv[i as int]);
            assert(piece@ =~= seq![tv[i as int]]);
            assert("\\"@ =~= seq!['\\']);
            assert(out@ =~= spec_escaped(tv.take(i + 1)));
        }
        i = i + 1;
    }
    proof {
        assert(tv.take(n as int) =~= tv);
    }
    out
}

/// The signed change text in whole and hundredth percent: a sign, the whole
/// part, a dot and two digits.
pub open spec fn spec_change_text(change_centipct: int) -> Seq<char> {
    let mag = if change_centipct >= 0 {
        change_centipct
    } else {
        -change_centipct
    };
    (if change_centipct >= 0 {
        "+"@
    } else {
        "-"@
    }) + spec_digits((mag / 100) as nat) + "."@ + spec_padded((mag % 100) as nat, 2)
}

/// Render a signed change in hundredths of a percent, always with a sign.
pub fn format_change(change_centipct: i128) -> (s: String)
    requires
        change_centipct > i128::MIN,
    ensures
        s@ == spec_change_text(change_centipct as int),
{
    proof {
        reveal_strlit("+");
        reveal_strlit("-");
    }
    let mag: u128 = if change_centipct >= 0 {
        change_centipct as u128
    } else {
        (-change_centipct) as u128
    };
    let mut s = if change_centipct >= 0 {
        "+".to_owned()
    } else {
        "-".to_owned()
    };
    let whole = u128_to_string(mag / 100);
    s.append(whole.as_str());
    proof {
        reveal_strlit(".");
        assert("."@ =~= seq!['.']);
        assert("+"@ =~= seq!['+']);
        assert("-"@ =~= seq!['-']);
    }
    s.append(".");
    let frac = padded_to_string(mag % 100, 2);
    s.append(frac.as_str());
    proof {
        assert(s@ =~= spec_change_text(change_centipct as int));
    }
    s
}

/// What `compose_ratio_alert` returns.
pub open spec fn spec_ratio_alert(
    pair_name: Seq<char>,
    ratio: Ratio,
    change_centipct: int,
    time_window: Seq<char>,
    now: int,
) -> Seq<char> {
    (if change_centipct > 0 {
        "\u{1F4C8}"@
    } else {
        "\u{1F4C9}"@
    }) + " *Ratio Alert: "@ + pair_name + "*\n\nCurrent Ratio: `"@ + spec_scaled_decimal(
        ratio.spec_scaled8() as nat,
        8,
        8,
    ) + "`\nChange: `"@ + spec_change_text(change_centipct) + "%` in "@ + time_window + "\nTime: "@
        + utc_datetime_text(now)
}

/// Compose one threshold-breach alert: direction marker, pair, current ratio
/// to eight decimal places, signed change over the window, and the time.
pub fn compose_ratio_alert(
    pair_name: &str,
    ratio: &Ratio,
    change_centipct: i128,
    time_window: &str,
    now: u64,
) -> (s: String)
    requires
        ratio.wf(),
        change_centipct > i128::MIN,
        now <= MAX_UTC_SECS,
    ensures
        s@ == spec_ratio_alert(pair_name@, *ratio, change_centipct as int, time_window@, now as int),
{
    proof {
        crate::fixed::lemma_pow10_16();
    }
    let mut s = if change_centipct > 0 {
        "\u{1F4C8}".to_owned()
    } else {
        "\u{1F4C9}".to_owned()
    };
    s.append(" *Ratio Alert: ");
    s.append(pair_name);
    s.append("*\n\nCurrent Ratio: `");
    let ratio_text = scaled_decimal(ratio.scaled8(), 8, 8);
    s.append(ratio_text.as_str());
    s.append("`\nChange: `");
    let change_text = format_change(change_centipct);
    s.append(change_text.as_str());
    s.append("%` in ");
    s.append(time_window);
    s.append("\nTime: ");
    let time_text = format_utc(now);
    s.append(time_text.as_str());
    proof {
        assert(s@ =~= spec_ratio_alert(
            pair_name@,
            *ratio,
            change_centipct as int,
            time_window@,
            now as int,
        ));
    }
    s
}

/// What `compose_pair_update` returns.
pub open spec fn spec_pair_update(r: SimpleRatio) -> Seq<char> {
    "*"@ + r.pair_name@ + "*\n`"@ + spec_scaled_decimal(r.ratio.spec_scaled8() as nat, 8, 8)
        + "`\n"@ + r.symbol_a@ + " $"@ + spec_scaled_decimal(r.price_a as nat, 8, 2) + " / "@
        + r.symbol_b@ + " $"@ + spec_scaled_decimal(r.price_b as nat, 8, 2)
}

/// Compose one pair's line of the periodic digest.
pub fn compose_pair_update(r: &SimpleRatio) -> (s: String)
    requires
        r.wf(),
    ensures
        s@ == spec_pair_update(*r),
{
    proof {
        crate::fixed::lemma_pow10_16();
    }
    let mut s = "*".to_owned();
    s.append(r.pair_name.as_str());
    s.append("*\n`");
    let ratio_text = scaled_decimal(r.ratio.scaled8(), 8, 8);
    s.append(ratio_text.as_str());
    s.append("`\n");
    s.append(r.symbol_a.as_str());
    s.append(" $");
    let pa = scaled_decimal(r.price_a as u128, 8, 2);
    s.append(pa.as_str());
    s.append(" / ");
    s.append(r.symbol_b.as_str());
    s.append(" $");
    let pb = scaled_decimal(r.price_b as u128, 8, 2);
    s.append(pb.as_str());
    proof {
        assert(s@ =~= spec_pair_update(*r));
    }
    s
}

/// The digest body: the updates joined by blank lines.
pub open spec fn spec_joined_updates(updates: Seq<Seq<char>>) -> Seq<char>
    decreases updates.len(),
{
    if updates.len() == 0 {
        Seq::empty()
    } else if updates.len() == 1 {
        updates[0]
    } else {
        spec_joined_updates(updates.drop_last()) + "\n\n"@ + updates.last()
    }
}

/// What `compose_periodic_update` returns.
pub open spec fn spec_periodic_update(updates: Seq<Seq<char>>, now: int) -> Seq<char> {
    "\u{1F4CA}"@ + " *Periodic Ratio Update*\n\n"@ + spec_joined_updates(updates) + "\n\n_Time: "@
        + utc_datetime_text(now) + "_"@
}

/// Compose the periodic digest from the per-pair update lines.
pub fn compose_periodic_update(updates: &Vec<String>, now: u64) -> (s: String)
    requires
        now <= MAX_UTC_SECS,
    ensures
        s@ == spec_periodic_update(updates@.map_values(|u: String| u@), now as int),
{
    let ghost uv = updates@.map_values(|u: String| u@);
    let mut s = "\u{1F4CA}".to_owned();
    s.append(" *Periodic Ratio Update*\n\n");
    let mut i: usize = 0;
    proof {
        assert(uv.take(0) =~= Seq::<Seq<char>>::empty());
    }
    let mut body = String::new();
    while i < updates.len()
        invariant
            uv == updates@.map_values(|u: String| u@),
            i <= updates@.len(),
            body@ == spec_joined_updates(uv.take(i as int)),
        decreases updates@.len() - i,
    {
        if i > 0 {
            body.append("\n\n");
        }
        body.append(updates[i].as_str());
        proof {
            assert(uv.take(i + 1).drop_last() =~= uv.take(i as int));
            assert(uv.take(i + 1).last() == uv[i as int]);
            assert(uv[i as int] == updates@[i as int]@);
            if i > 0 {
                assert(body@ =~= spec_joined_updates(uv.take(i + 1)));
            } else {
                assert(body@ =~= spec_joined_updates(uv.take(1)));
            }
        }
        i = i + 1;
    }
    proof {
        assert(uv.take(updates@.len() as int) =~= uv);
    }
    s.append(body.as_str());
    s.append("\n\n_Time: ");
    let time_text = format_utc(now);
    s.append(time_text.as_str());
    s.append("_");
    proof {
        assert(s@ =~= spec_periodic_update(uv, now as int));
    }
    s
}

/// What `compose_slippage_message` returns.
pub open spec fn spec_slippage_message(analysis: Seq<char>) -> Seq<char> {
    "\u{1F50D}"@ + " *Slippage Analysis*\n\n```\n"@ + analysis + "\n```"@
}

/// Wrap a slippage summary for delivery.
pub fn compose_slippage_message(analysis: &str) -> (s: String)
    ensures
        s@ == spec_slippage_message(analysis@),
{
    let mut s = "\u{1F50D}".to_owned();
    s.append(" *Slippage Analysis*\n\n```\n");
    s.append(analysis);
    s.append("\n```");
    proof {
        assert(s@ =~= spec_slippage_message(analysis@));
    }
    s
}

/// What `create_pairs_list` renders for the pair at one-based position `n`.
pub open spec fn spec_pair_entry(n: nat, p: RatioPair) -> Seq<char> {
    spec_digits(n) + "\\. *"@ + spec_escaped(p.name@) + "*\n   "@ + spec_escaped(p.symbol_a@)
        + " / "@ + spec_escaped(p.symbol_b@) + "\n"@ + (match p.analysis_volume {
        Some(v) => "   Volume: "@ + spec_scaled_decimal(v as nat, 8, 8) + "\n"@,
        None => Seq::empty(),
    }) + "\n"@
}

/// The numbered entries of all pairs, in configuration order.
pub open spec fn spec_pair_entries(pairs: Seq<RatioPair>) -> Seq<char>
    decreases pairs.len(),
{
    if pairs.len() == 0 {
        Seq::empty()
    } else {
        spec_pair_entries(pairs.drop_last()) + spec_pair_entry(pairs.len() as nat, pairs.last())
    }
}

/// What `create_pairs_list` returns: a header and one numbered entry per
/// configured pair.
pub open spec fn spec_pairs_list(pairs: Seq<RatioPair>) -> Seq<char> {
    "\u{1F4CB}"@ + " *Configured Ratio Pairs*\n\n"@ + spec_pair_entries(pairs)
}

/// List the configured pairs: a header and one numbered, escaped entry per
/// pair, with its analysis volume when one is set.
#[verifier::rlimit(50)]
pub fn create_pairs_list(config: &Config) -> (s: String)
    requires
        config.ratio_pairs@.len() < usize::MAX,
    ensures
        s@ == spec_pairs_list(config.ratio_pairs@),
{
    proof {
        crate::fixed::lemma_pow10_16();
    }
    let mut s = "\u{1F4CB}".to_owned();
    s.append(" *Configured Ratio Pairs*\n\n");
    let ghost pv = config.ratio_pairs@;
    let ghost header = s@;
    let mut i: usize = 0;
    proof {
        assert(pv.take(0) =~= Seq::<RatioPair>::empty());
    }
    while i < config.ratio_pairs.len()
        invariant
            pv == config.ratio_pairs@,
            pv.len() < usize::MAX,
            i <= pv.len(),
            header == "\u{1F4CB}"@ + " *Configured Ratio Pairs*\n\n"@,
            s@ == header + spec_pair_entries(pv.take(i as int)),
        decreases pv.len() - i,
    {
        let pair = &config.ratio_pairs[i];
        let num = crate::fixed::u64_to_string((i + 1) as u64);
        s.append(num.as_str());
        s.append("\\. *");
        let name_text = escape_markdown(pair.name.as_str());
        s.append(name_text.as_str());
        s.append("*\n   ");
        let a_text = escape_markdown(pair.symbol_a.as_str());
        s.append(a_text.as_str());
        s.append(" / ");
        let b_text = escape_markdown(pair.symbol_b.as_str());
        s.append(b_text.as_str());
        s.append("\n");
        proof {
            crate::fixed::lemma_pow10_16();
        }
        match pair.analysis_volume {
            Some(v) => {
                s.append("   Volume: ");
                let v_text = scaled_decimal(v as u128, 8, 8);
                s.append(v_text.as_str());
                s.append("\n");
            },
            None => {},
        }
        s.append("\n");
        proof {
            assert(pv.take(i + 1).drop_last() =~= pv.take(i as int));
            assert(pv.take(i + 1).last() == pv[i as int]);
            assert(s@ =~= header + spec_pair_entries(pv.take(i + 1)));
        }
        i = i + 1;
    }
    proof {
        assert(pv.take(pv.len() as int) =~= pv);
    }
    s
}

} // verus!
