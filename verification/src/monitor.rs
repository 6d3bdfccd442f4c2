use vstd::prelude::*;
use vstd::string::StringExecFns;
use vstd::string::StrSliceExecFns;

use crate::fixed::{spec_digits, u64_to_string, MAX_PRICE_UNITS};
use crate::ratio::Ratio;

verus! {

/// Largest alert threshold the library accepts, in hundredths of a percent
/// (ten thousand percent).
pub const MAX_THRESHOLD_CENTIPCT: u32 = 1_000_000;

/// One history entry: a pair's ratio at one instant.
#[derive(Debug, Clone, Copy, PartialEq, Eq, Structural)]
pub struct RatioSnapshot {
    pub ratio: Ratio,
    pub timestamp: u64,
}

/// One alert decision: the breached threshold and the signed relative change,
/// both in hundredths of a percent.
#[derive(Debug, Clone, Copy, PartialEq, Eq, Structural)]
pub struct Alert {
    pub threshold_centipct: u32,
    pub change_centipct: i128,
}

/// Rolling state of one monitored pair: its pruned ratio history and, for
/// each configured threshold, whether that threshold has already alerted
/// since the last periodic reset.
#[derive(Debug)]
pub struct PairState {
    pub history: Vec<RatioSnapshot>,
    pub triggered: Vec<bool>,
}

/// State owned by the monitoring loop: one `PairState` per configured pair
/// and the time the periodic digest last fired.
#[derive(Debug)]
pub struct MonitorState {
    pub pairs: Vec<PairState>,
    pub last_periodic: u64,
}

/// History timestamps never decrease.
pub open spec fn sorted_history(h: Seq<RatioSnapshot>) -> bool {
    forall|a: int, b: int|
        0 <= a < b < h.len() ==> (#[trigger] h[a]).timestamp <= (#[trigger] h[b]).timestamp
}

/// Every stored ratio is well-formed.
pub open spec fn wf_ratios(h: Seq<RatioSnapshot>) -> bool {
    forall|a: int| 0 <= a < h.len() ==> (#[trigger] h[a]).ratio.wf()
}

impl PairState {
    /// The debounce list is parallel to the configured thresholds, and the
    /// history is time-ordered with well-formed ratios.
    pub open spec fn wf(&self, n_thresholds: int) -> bool {
        &&& self.triggered@.len() == n_thresholds
        &&& sorted_history(self.history@)
        &&& wf_ratios(self.history@)
    }
}

impl MonitorState {
    pub open spec fn wf(&self, n_pairs: int, n_thresholds: int) -> bool {
        &&& self.pairs@.len() == n_pairs
        &&& forall|p: int| 0 <= p < n_pairs ==> (#[trigger] self.pairs@[p]).wf(n_thresholds)
    }

    /// Fresh state: one empty pair slot per configured pair, nothing
    /// triggered, and the periodic timer starting now.
    pub fn new(n_pairs: usize, n_thresholds: usize, now: u64) -> (st: MonitorState)
        ensures
            st.wf(n_pairs as int, n_thresholds as int),
            st.pairs@.len() == n_pairs,
            forall|p: int|
                0 <= p < n_pairs ==> (#[trigger] st.pairs@[p]).history@.len() == 0 && forall|
                    j: int,
                |
                    0 <= j < n_thresholds ==> !(#[trigger] st.pairs@[p].triggered@[j]),
            st.last_periodic == now,
    {
        let mut pairs: Vec<PairState> = Vec::new();
        let mut p: usize = 0;
        while p < n_pairs
            invariant
                p <= n_pairs,
                pairs@.len() == p,
                forall|q: int|
                    0 <= q < p ==> (#[trigger] pairs@[q]).wf(n_thresholds as int)
                        && pairs@[q].history@.len() == 0 && forall|j: int|
                        0 <= j < n_thresholds ==> !(#[trigger] pairs@[q].triggered@[j]),
            decreases n_pairs - p,
        {
            let mut triggered: Vec<bool> = Vec::new();
            let mut j: usize = 0;
            while j < n_thresholds
                invariant
                    j <= n_thresholds,
                    triggered@.len() == j,
                    forall|k: int| 0 <= k < j ==> !(#[trigger] triggered@[k]),
                decreases n_thresholds - j,
            {
                triggered.push(false);
                j = j + 1;
            }
            pairs.push(PairState { history: Vec::new(), triggered });
            p = p + 1;
        }
        MonitorState { pairs, last_periodic: now }
    }
}

/// Relative change of `cur` against `base`, compared against a threshold in
/// hundredths of a percent, exactly, by cross-multiplication:
/// `|cur/base - 1| * 100 >= t / 100`.
pub open spec fn change_exceeds(cur: Ratio, base: Ratio, t: u32) -> bool {
    let up = cur.num * base.den;
    let down = base.num * cur.den;
    let diff = if up >= down {
        up - down
    } else {
        down - up
    };
    diff * 10_000 >= t * down
}

/// The signed relative change of `cur` against `base` in hundredths of a
/// percent, truncated toward zero.
pub open spec fn spec_change_centipct(cur: Ratio, base: Ratio) -> int {
    let up = cur.num * base.den;
    let down = base.num * cur.den;
    if up >= down {
        ((up - down) * 10_000) / down
    } else {
        -(((down - up) * 10_000) / down)
    }
}

/// Exact breach test for one threshold.
pub fn threshold_breached(cur: &Ratio, base: &Ratio, threshold: u32) -> (b: bool)
    requires
        cur.wf(),
        base.wf(),
        threshold <= MAX_THRESHOLD_CENTIPCT,
    ensures
        b == change_exceeds(*cur, *base, threshold),
{
    proof {
        lemma_ratio_products_bounded(*cur, *base);
        assert(threshold * (base.num * cur.den) <= MAX_THRESHOLD_CENTIPCT * (MAX_PRICE_UNITS
            * MAX_PRICE_UNITS)) by (nonlinear_arith)
            requires
                0 <= threshold <= MAX_THRESHOLD_CENTIPCT,
                0 <= base.num * cur.den <= MAX_PRICE_UNITS * MAX_PRICE_UNITS,
        ;
    }
    let up: u128 = (cur.num as u128) * (base.den as u128);
    let down: u128 = (base.num as u128) * (cur.den as u128);
    let diff: u128 = if up >= down {
        up - down
    } else {
        down - up
    };
    diff * 10_000 >= (threshold as u128) * down
}

/// The signed change in hundredths of a percent, truncated toward zero.
pub fn change_centipct(cur: &Ratio, base: &Ratio) -> (c: i128)
    requires
        cur.wf(),
        base.wf(),
    ensures
        c == spec_change_centipct(*cur, *base),
{
    proof {
        lemma_ratio_products_bounded(*cur, *base);
    }
    let up: u128 = (cur.num as u128) * (base.den as u128);
    let down: u128 = (base.num as u128) * (cur.den as u128);
    if up >= down {
        let m: u128 = (up - down) * 10_000 / down;
        proof {
            lemma_div_le_numerator((up - down) * 10_000, down as int);
        }
        m as i128
    } else {
        let m: u128 = (down - up) * 10_000 / down;
        proof {
            lemma_div_le_numerator((down - up) * 10_000, down as int);
        }
        -(m as i128)
    }
}

/// Cross products of two well-formed ratios stay far inside `u128`, and the
/// denominator product is positive.
proof fn lemma_ratio_products_bounded(cur: Ratio, base: Ratio)
    requires
        cur.wf(),
        base.wf(),
    ensures
        0 <= cur.num * base.den <= MAX_PRICE_UNITS * MAX_PRICE_UNITS,
        1 <= base.num * cur.den <= MAX_PRICE_UNITS * MAX_PRICE_UNITS,
{
    assert(cur.num * base.den <= MAX_PRICE_UNITS * MAX_PRICE_UNITS) by (nonlinear_arith)
        requires
            0 < cur.num <= MAX_PRICE_UNITS,
            0 < base.den <= MAX_PRICE_UNITS,
    ;
    assert(1 <= base.num * cur.den <= MAX_PRICE_UNITS * MAX_PRICE_UNITS) by (nonlinear_arith)
        requires
            0 < base.num <= MAX_PRICE_UNITS,
            0 < cur.den <= MAX_PRICE_UNITS,
    ;
}

/// A floored quotient with a positive divisor never exceeds its non-negative
/// numerator.
proof fn lemma_div_le_numerator(x: int, d: int)
    requires
        x >= 0,
        d >= 1,
    ensures
        0 <= x / d <= x,
{
    assert(0 <= x / d <= x) by (nonlinear_arith)
        requires
            x >= 0,
            d >= 1,
    ;
}

/// Start of the baseline window: `now - window_secs`, clamped at zero.
pub open spec fn window_start(now: u64, window_secs: u64) -> int {
    if now >= window_secs {
        now - window_secs
    } else {
        0
    }
}

/// Oldest history entries are pruned below this bound: twice the change
/// window, so the buffer tolerates check-interval jitter.
pub open spec fn prune_cutoff(now: u64, window_secs: u64) -> int {
    if now > 2 * window_secs {
        now - 2 * window_secs
    } else {
        0
    }
}

/// The filter that pruning applies to the history.
pub open spec fn keep_after(cutoff: int) -> spec_fn(RatioSnapshot) -> bool {
    |s: RatioSnapshot| s.timestamp > cutoff
}

/// Index of the first history entry inside the window; the history length if
/// none is.
pub open spec fn win_idx(h: Seq<RatioSnapshot>, start: int) -> int
    decreases h.len(),
{
    if h.len() == 0 {
        0
    } else if h[0].timestamp >= start {
        0
    } else {
        1 + win_idx(h.drop_first(), start)
    }
}

/// The baseline: the oldest entry inside the window, or the oldest retained
/// entry if none is inside.
pub open spec fn baseline_idx(h: Seq<RatioSnapshot>, start: int) -> int {
    if win_idx(h, start) < h.len() {
        win_idx(h, start)
    } else {
        0
    }
}

/// Find the baseline entry for the given window start.
fn find_baseline_index(history: &Vec<RatioSnapshot>, start: u64) -> (idx: usize)
    requires
        history@.len() > 0,
    ensures
        idx == baseline_idx(history@, start as int),
        idx < history@.len(),
{
    let ghost hseq = history@;
    let ghost len = hseq.len() as int;
    proof {
        assert(hseq.subrange(0, len) =~= hseq);
    }
    let mut i: usize = 0;
    while i < history.len()
        invariant
            hseq == history@,
            len == hseq.len() as int,
            i <= history@.len(),
            win_idx(hseq, start as int) == i + win_idx(
                hseq.subrange(i as int, len),
                start as int,
            ),
        decreases len - i,
    {
        if history[i].timestamp >= start {
            proof {
                assert(hseq.subrange(i as int, len)[0] == hseq[i as int]);
            }
            return i;
        }
        proof {
            let s = hseq.subrange(i as int, len);
            assert(s[0] == hseq[i as int]);
            assert(s.drop_first() =~= hseq.subrange(i + 1, len));
        }
        i = i + 1;
    }
    proof {
        assert(hseq.subrange(len, len) =~= Seq::<RatioSnapshot>::empty());
    }
    0
}

/// Is the threshold at index `j` already recorded as triggered for this pair?
pub fn was_threshold_recently_triggered(ps: &PairState, threshold_idx: usize) -> (b: bool)
    requires
        threshold_idx < ps.triggered@.len(),
    ensures
        b == ps.triggered@[threshold_idx as int],
{
    ps.triggered[threshold_idx]
}

/// Record the threshold at index `j` as triggered for this pair.
pub fn mark_threshold_triggered(ps: &mut PairState, threshold_idx: usize)
    requires
        threshold_idx < old(ps).triggered@.len(),
    ensures
        final(ps).history == old(ps).history,
        final(ps).triggered@ == old(ps).triggered@.update(threshold_idx as int, true),
{
    ps.triggered[threshold_idx] = true;
}

/// Clear every triggered threshold of this pair.
pub fn reset_triggered_thresholds(ps: &mut PairState)
    ensures
        final(ps).history == old(ps).history,
        final(ps).triggered@.len() == old(ps).triggered@.len(),
        forall|j: int| 0 <= j < final(ps).triggered@.len() ==> !(#[trigger] final(ps).triggered@[j]),
{
    let n = ps.triggered.len();
    let mut j: usize = 0;
    while j < n
        invariant
            n == ps.triggered@.len(),
            j <= n,
            ps.history == old(ps).history,
            forall|k: int| 0 <= k < j ==> !(#[trigger] ps.triggered@[k]),
        decreases n - j,
    {
        ps.triggered[j] = false;
        j = j + 1;
    }
}

/// Does a tick with current ratio `cur` against baseline `base` fire an alert
/// for the threshold at index `j`? It does iff that threshold is breached now
/// and has not alerted since the last reset.
pub open spec fn tick_fires(trig: Seq<bool>, ts: Seq<u32>, cur: Ratio, base: Ratio, j: int) -> bool {
    change_exceeds(cur, base, ts[j]) && !trig[j]
}

/// Debounce state after one tick: a threshold is triggered afterwards iff it
/// was already triggered or it is breached now.
pub open spec fn spec_triggered_after(trig: Seq<bool>, ts: Seq<u32>, cur: Ratio, base: Ratio) -> Seq<
    bool,
> {
    Seq::new(trig.len(), |j: int| trig[j] || change_exceeds(cur, base, ts[j]))
}

/// The alerts one tick emits, in threshold order: one for each threshold that
/// fires.
pub open spec fn spec_alerts(ts: Seq<u32>, trig: Seq<bool>, cur: Ratio, base: Ratio) -> Seq<Alert>
    decreases ts.len(),
{
    if ts.len() == 0 || trig.len() == 0 {
        Seq::empty()
    } else {
        let head: Seq<Alert> = if tick_fires(trig, ts, cur, base, 0) {
            seq![
                Alert {
                    threshold_centipct: ts[0],
                    change_centipct: spec_change_centipct(cur, base) as i128,
                },
            ]
        } else {
            Seq::empty()
        };
        head + spec_alerts(ts.drop_first(), trig.drop_first(), cur, base)
    }
}

proof fn lemma_spec_alerts_push(ts: Seq<u32>, trig: Seq<bool>, x: u32, y: bool, cur: Ratio, base: Ratio)
    requires
        ts.len() == trig.len(),
    ensures
        spec_alerts(ts.push(x), trig.push(y), cur, base) == spec_alerts(ts, trig, cur, base) + (
        if change_exceeds(cur, base, x) && !y {
            seq![
                Alert {
                    threshold_centipct: x,
                    change_centipct: spec_change_centipct(cur, base) as i128,
                },
            ]
        } else {
            Seq::<Alert>::empty()
        }),
    decreases ts.len(),
{
    let tail = if change_exceeds(cur, base, x) && !y {
        seq![
            Alert { threshold_centipct: x, change_centipct: spec_change_centipct(cur, base) as i128 },
        ]
    } else {
        Seq::<Alert>::empty()
    };
    if ts.len() == 0 {
        reveal_with_fuel(spec_alerts, 3);
        assert(ts.push(x).drop_first() =~= Seq::<u32>::empty());
        assert(trig.push(y).drop_first() =~= Seq::<bool>::empty());
        assert(spec_alerts(ts.push(x), trig.push(y), cur, base) =~= spec_alerts(ts, trig, cur, base)
            + tail);
    } else {
        assert(ts.push(x).drop_first() =~= ts.drop_first().push(x));
        assert(trig.push(y).drop_first() =~= trig.drop_first().push(y));
        lemma_spec_alerts_push(ts.drop_first(), trig.drop_first(), x, y, cur, base);
        assert(spec_alerts(ts.push(x), trig.push(y), cur, base) =~= spec_alerts(ts, trig, cur, base)
            + tail);
    }
}

/// Check every configured threshold against the baseline and emit one alert
/// for each threshold that breaches and is not yet triggered; mark every
/// breached threshold as triggered. The alert carries the exact truncated
/// change. An empty history skips the check.
pub fn check_thresholds(
    ps: &mut PairState,
    thresholds: &Vec<u32>,
    change_window_secs: u64,
    current: &RatioSnapshot,
    now: u64,
) -> (alerts: Vec<Alert>)
    requires
        old(ps).wf(thresholds@.len() as int),
        current.ratio.wf(),
        forall|j: int|
            0 <= j < thresholds@.len() ==> 0 < (#[trigger] thresholds@[j])
                <= MAX_THRESHOLD_CENTIPCT,
    ensures
        final(ps).history == old(ps).history,
        final(ps).wf(thresholds@.len() as int),
        old(ps).history@.len() == 0 ==> final(ps).triggered@ == old(ps).triggered@ && alerts@
            == Seq::<Alert>::empty(),
        old(ps).history@.len() > 0 ==> ({
            let base = old(ps).history@[baseline_idx(
                old(ps).history@,
                window_start(now, change_window_secs),
            )].ratio;
            &&& final(ps).triggered@ == spec_triggered_after(
                old(ps).triggered@,
                thresholds@,
                current.ratio,
                base,
            )
            &&& alerts@ == spec_alerts(thresholds@, old(ps).triggered@, current.ratio, base)
        }),
{
    let mut alerts: Vec<Alert> = Vec::new();
    if ps.history.len() == 0 {
        return alerts;
    }
    let start: u64 = if now >= change_window_secs {
        now - change_window_secs
    } else {
        0
    };
    let bidx = find_baseline_index(&ps.history, start);
    let base: Ratio = ps.history[bidx].ratio;
    let change: i128 = change_centipct(&current.ratio, &base);
    let ghost trig0 = ps.triggered@;
    let ghost tseq = thresholds@;
    let ghost n = tseq.len() as int;
    let mut j: usize = 0;
    proof {
        assert(tseq.take(0) =~= Seq::<u32>::empty());
        assert(trig0.take(0) =~= Seq::<bool>::empty());
    }
    while j < thresholds.len()
        invariant
            tseq == thresholds@,
            n == tseq.len() as int,
            j <= n,
            trig0.len() == n,
            ps.triggered@.len() == n,
            ps.history == old(ps).history,
            current.ratio.wf(),
            base.wf(),
            change == spec_change_centipct(current.ratio, base),
            forall|k: int|
                0 <= k < n ==> 0 < (#[trigger] tseq[k]) <= MAX_THRESHOLD_CENTIPCT,
            forall|k: int|
                0 <= k < j ==> (#[trigger] ps.triggered@[k]) == (trig0[k] || change_exceeds(
                    current.ratio,
                    base,
                    tseq[k],
                )),
            forall|k: int| j <= k < n ==> (#[trigger] ps.triggered@[k]) == trig0[k],
            alerts@ == spec_alerts(
                tseq.take(j as int),
                trig0.take(j as int),
                current.ratio,
                base,
            ),
        decreases n - j,
    {
        let t = thresholds[j];
        let breached = threshold_breached(&current.ratio, &base, t);
        let already = ps.triggered[j];
        if breached && !already {
            alerts.push(Alert { threshold_centipct: t, change_centipct: change });
            ps.triggered[j] = true;
        }
        proof {
            lemma_spec_alerts_push(
                tseq.take(j as int),
                trig0.take(j as int),
                tseq[j as int],
                trig0[j as int],
                current.ratio,
                base,
            );
            assert(tseq.take(j + 1) =~= tseq.take(j as int).push(tseq[j as int]));
            assert(trig0.take(j + 1) =~= trig0.take(j as int).push(trig0[j as int]));
        }
        j = j + 1;
    }
    proof {
        assert(tseq.take(n) =~= tseq);
        assert(trig0.take(n) =~= trig0);
        assert(ps.triggered@ =~= spec_triggered_after(trig0, tseq, current.ratio, base));
    }
    alerts
}

/// Append a snapshot to the pair's history, then prune everything at or
/// before the cutoff of twice the change window.
pub fn add_to_history(
    ps: &mut PairState,
    snapshot: RatioSnapshot,
    change_window_secs: u64,
    now: u64,
)
    requires
        sorted_history(old(ps).history@),
        wf_ratios(old(ps).history@),
        snapshot.ratio.wf(),
        old(ps).history@.len() > 0 ==> old(ps).history@.last().timestamp <= snapshot.timestamp,
    ensures
        final(ps).triggered == old(ps).triggered,
        final(ps).history@ == old(ps).history@.push(snapshot).filter(
            keep_after(prune_cutoff(now, change_window_secs)),
        ),
        sorted_history(final(ps).history@),
        wf_ratios(final(ps).history@),
        snapshot.timestamp > prune_cutoff(now, change_window_secs) ==> final(ps).history@.len()
            > 0 && final(ps).history@.last() == snapshot,
{
    let ghost old_hist = ps.history@;
    ps.history.push(snapshot);
    let ghost pushed = ps.history@;
    let ghost cutoff_g = prune_cutoff(now, change_window_secs);
    let ghost pred = keep_after(cutoff_g);
    proof {
        assert(sorted_history(pushed)) by {
            assert(forall|a: int| 0 <= a < old_hist.len() ==> pushed[a] == old_hist[a]);
            assert(forall|a: int|
                0 <= a < old_hist.len() ==> (#[trigger] old_hist[a]).timestamp
                    <= old_hist[old_hist.len() - 1].timestamp);
        }
    }
    let dbl: u128 = 2 * (change_window_secs as u128);
    let cutoff: u64 = if (now as u128) > dbl {
        now - (dbl as u64)
    } else {
        0
    };
    proof {
        assert(cutoff as int == cutoff_g);
        assert(pushed.take(0) =~= Seq::<RatioSnapshot>::empty());
        reveal(Seq::filter);
        assert(pushed.take(0).filter(pred) =~= Seq::<RatioSnapshot>::empty());
    }
    let mut kept: Vec<RatioSnapshot> = Vec::new();
    let mut i: usize = 0;
    while i < ps.history.len()
        invariant
            pushed == ps.history@,
            pred == keep_after(cutoff_g),
            i <= pushed.len(),
            sorted_history(pushed),
            wf_ratios(pushed),
            cutoff as int == cutoff_g,
            kept@ == pushed.take(i as int).filter(pred),
            sorted_history(kept@),
            wf_ratios(kept@),
            kept@.len() > 0 ==> i > 0 && kept@.last().timestamp <= pushed[i - 1].timestamp,
        decreases pushed.len() - i,
    {
        let s = ps.history[i];
        let ghost kept0 = kept@;
        if s.timestamp > cutoff {
            kept.push(s);
            proof {
                assert(forall|a: int| 0 <= a < kept0.len() ==> kept@[a] == kept0[a]);
                if kept0.len() > 0 {
                    assert(kept0.last().timestamp <= pushed[i - 1].timestamp);
                    assert(pushed[i - 1].timestamp <= pushed[i as int].timestamp);
                }
                assert(sorted_history(kept@)) by {
                    assert(forall|a: int|
                        0 <= a < kept0.len() ==> (#[trigger] kept0[a]).timestamp
                            <= kept0[kept0.len() - 1].timestamp || kept0.len() == 0);
                }
            }
        }
        proof {
            reveal(Seq::filter);
            assert(pushed.take(i + 1).drop_last() =~= pushed.take(i as int));
            assert(pushed.take(i + 1).last() == pushed[i as int]);
            assert(kept@ =~= pushed.take(i + 1).filter(pred));
        }
        i = i + 1;
    }
    proof {
        assert(pushed.take(pushed.len() as int) =~= pushed);
        reveal(Seq::filter);
        assert(pushed.drop_last() =~= old_hist);
        assert(pushed.last() == snapshot);
    }
    ps.history = kept;
}

/// One pair tick: record the sampled ratio in the pruned history, pick the
/// baseline, and emit the debounced alerts for every breached threshold.
pub fn process_pair_sample(
    ps: &mut PairState,
    thresholds: &Vec<u32>,
    change_window_secs: u64,
    ratio: Ratio,
    now: u64,
) -> (alerts: Vec<Alert>)
    requires
        old(ps).wf(thresholds@.len() as int),
        ratio.wf(),
        forall|j: int|
            0 <= j < thresholds@.len() ==> 0 < (#[trigger] thresholds@[j])
                <= MAX_THRESHOLD_CENTIPCT,
        change_window_secs > 0,
        now > 0,
        old(ps).history@.len() > 0 ==> old(ps).history@.last().timestamp <= now,
    ensures
        final(ps).wf(thresholds@.len() as int),
        ({
            let snap = RatioSnapshot { ratio, timestamp: now };
            let pruned = old(ps).history@.push(snap).filter(
                keep_after(prune_cutoff(now, change_window_secs)),
            );
            let base = pruned[baseline_idx(pruned, window_start(now, change_window_secs))].ratio;
            &&& final(ps).history@ == pruned
            &&& final(ps).triggered@ == spec_triggered_after(
                old(ps).triggered@,
                thresholds@,
                ratio,
                base,
            )
            &&& alerts@ == spec_alerts(thresholds@, old(ps).triggered@, ratio, base)
        }),
{
    let snap = RatioSnapshot { ratio, timestamp: now };
    add_to_history(ps, snap, change_window_secs, now);
    check_thresholds(ps, thresholds, change_window_secs, &snap, now)
}

/// Has the periodic digest period elapsed?
pub fn periodic_due(st: &MonitorState, periodic_notification_secs: u64, now: u64) -> (b: bool)
    requires
        now >= st.last_periodic,
    ensures
        b == (now - st.last_periodic >= periodic_notification_secs),
{
    now - st.last_periodic >= periodic_notification_secs
}

/// Commit a periodic digest: restart the period now and clear every pair's
/// debounce state, so each threshold may alert again.
pub fn apply_periodic_fired(st: &mut MonitorState, now: u64)
    ensures
        final(st).last_periodic == now,
        final(st).pairs@.len() == old(st).pairs@.len(),
        forall|p: int|
            0 <= p < final(st).pairs@.len() ==> {
                &&& (#[trigger] final(st).pairs@[p]).history == old(st).pairs@[p].history
                &&& final(st).pairs@[p].triggered@.len() == old(st).pairs@[p].triggered@.len()
                &&& forall|j: int|
                    0 <= j < final(st).pairs@[p].triggered@.len()
                        ==> !(#[trigger] final(st).pairs@[p].triggered@[j])
            },
{
    let n = st.pairs.len();
    let mut p: usize = 0;
    while p < n
        invariant
            n == st.pairs@.len(),
            p <= n,
            st.last_periodic == old(st).last_periodic,
            forall|q: int| p <= q < n ==> st.pairs@[q] == old(st).pairs@[q],
            forall|q: int|
                0 <= q < p ==> {
                    &&& (#[trigger] st.pairs@[q]).history == old(st).pairs@[q].history
                    &&& st.pairs@[q].triggered@.len() == old(st).pairs@[q].triggered@.len()
                    &&& forall|j: int|
                        0 <= j < st.pairs@[q].triggered@.len()
                            ==> !(#[trigger] st.pairs@[q].triggered@[j])
                },
        decreases n - p,
    {
        let ps = &mut st.pairs[p];
        reset_triggered_thresholds(ps);
        p = p + 1;
    }
    st.last_periodic = now;
}

/// How many thresholds fire on one tick.
pub open spec fn fired_count(ts: Seq<u32>, trig: Seq<bool>, cur: Ratio, base: Ratio) -> int
    decreases ts.len(),
{
    if ts.len() == 0 || trig.len() == 0 {
        0
    } else {
        (if tick_fires(trig, ts, cur, base, 0) {
            1int
        } else {
            0int
        }) + fired_count(ts.drop_first(), trig.drop_first(), cur, base)
    }
}

/// One tick's alert list carries exactly one entry per threshold that fires.
pub proof fn lemma_one_alert_per_fired_threshold(
    ts: Seq<u32>,
    trig: Seq<bool>,
    cur: Ratio,
    base: Ratio,
)
    requires
        ts.len() == trig.len(),
    ensures
        spec_alerts(ts, trig, cur, base).len() == fired_count(ts, trig, cur, base),
    decreases ts.len(),
{
    if ts.len() > 0 {
        lemma_one_alert_per_fired_threshold(ts.drop_first(), trig.drop_first(), cur, base);
    }
}

/// Debounce state after a run of consecutive ticks with no reset in between:
/// each tick folds `spec_triggered_after` over the (current, baseline) pair
/// it observed.
pub open spec fn run_triggered(trig: Seq<bool>, ts: Seq<u32>, samples: Seq<(Ratio, Ratio)>) -> Seq<
    bool,
>
    decreases samples.len(),
{
    if samples.len() == 0 {
        trig
    } else {
        run_triggered(
            spec_triggered_after(trig, ts, samples[0].0, samples[0].1),
            ts,
            samples.drop_first(),
        )
    }
}

/// How many alerts such a run emits for the threshold at index `j`.
pub open spec fn run_alert_count(
    trig: Seq<bool>,
    ts: Seq<u32>,
    samples: Seq<(Ratio, Ratio)>,
    j: int,
) -> int
    decreases samples.len(),
{
    if samples.len() == 0 {
        0
    } else {
        (if tick_fires(trig, ts, samples[0].0, samples[0].1, j) {
            1int
        } else {
            0int
        }) + run_alert_count(
            spec_triggered_after(trig, ts, samples[0].0, samples[0].1),
            ts,
            samples.drop_first(),
            j,
        )
    }
}

/// A threshold already recorded as triggered never alerts again, however many
/// ticks pass, until a reset.
pub proof fn lemma_no_alert_when_triggered(
    trig: Seq<bool>,
    ts: Seq<u32>,
    samples: Seq<(Ratio, Ratio)>,
    j: int,
)
    requires
        0 <= j < trig.len(),
        trig[j],
    ensures
        run_alert_count(trig, ts, samples, j) == 0,
    decreases samples.len(),
{
    if samples.len() > 0 {
        let t2 = spec_triggered_after(trig, ts, samples[0].0, samples[0].1);
        assert(t2[j]);
        lemma_no_alert_when_triggered(t2, ts, samples.drop_first(), j);
    }
}

/// Debounce law: over any run of consecutive ticks that all breach the
/// threshold at index `j`, starting with that threshold untriggered and with
/// no periodic reset in between, exactly one alert for it is emitted.
pub proof fn lemma_debounce(trig: Seq<bool>, ts: Seq<u32>, samples: Seq<(Ratio, Ratio)>, j: int)
    requires
        ts.len() == trig.len(),
        0 <= j < ts.len(),
        !trig[j],
        samples.len() > 0,
        forall|k: int|
            0 <= k < samples.len() ==> change_exceeds(
                (#[trigger] samples[k]).0,
                samples[k].1,
                ts[j],
            ),
    ensures
        run_alert_count(trig, ts, samples, j) == 1,
{
    let t2 = spec_triggered_after(trig, ts, samples[0].0, samples[0].1);
    assert(change_exceeds(samples[0].0, samples[0].1, ts[j]));
    assert(tick_fires(trig, ts, samples[0].0, samples[0].1, j));
    assert(t2[j]);
    lemma_no_alert_when_triggered(t2, ts, samples.drop_first(), j);
}

/// Reset law: once the periodic digest has cleared the debounce state, a
/// threshold that breaches on the next tick alerts again.
pub proof fn lemma_reset_realert(n: nat, ts: Seq<u32>, cur: Ratio, base: Ratio, j: int)
    requires
        ts.len() == n,
        0 <= j < n,
        change_exceeds(cur, base, ts[j]),
    ensures
        run_alert_count(Seq::new(n, |k: int| false), ts, seq![(cur, base)], j) == 1,
{
    let cleared = Seq::new(n, |k: int| false);
    assert(tick_fires(cleared, ts, cur, base, j));
    assert(seq![(cur, base)].drop_first() =~= Seq::<(Ratio, Ratio)>::empty());
    assert(run_alert_count(
        spec_triggered_after(cleared, ts, cur, base),
        ts,
        Seq::<(Ratio, Ratio)>::empty(),
        j,
    ) == 0);
}

/// What `format_duration` renders: whole seconds under a minute, whole
/// minutes under an hour, whole hours beyond.
pub open spec fn spec_duration(seconds: u64) -> Seq<char> {
    if seconds < 60 {
        spec_digits(seconds as nat) + "s"@
    } else if seconds < 3600 {
        spec_digits((seconds / 60) as nat) + "m"@
    } else {
        spec_digits((seconds / 3600) as nat) + "h"@
    }
}

/// Render a duration in seconds as a short human-readable string.
pub fn format_duration(seconds: u64) -> (s: String)
    ensures
        s@ == spec_duration(seconds),
{
    if seconds < 60 {
        let mut s = u64_to_string(seconds);
        s.append("s");
        s
    } else if seconds < 3600 {
        let mut s = u64_to_string(seconds / 60);
        s.append("m");
        s
    } else {
        let mut s = u64_to_string(seconds / 3600);
        s.append("h");
        s
    }
}

} // verus!
