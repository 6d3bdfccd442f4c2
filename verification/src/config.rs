use vstd::prelude::*;
use vstd::string::StringExecFns;
use vstd::string::StrSliceExecFns;

use crate::errors::RatioError;

verus! {

/// Where history is persisted.
#[derive(Debug, Clone)]
pub struct DatabaseConfig {
    pub path: String,
    pub retention_days: Option<i64>,
}

/// The notification channel's credentials.
#[derive(Debug, Clone)]
pub struct TelegramConfig {
    pub token: String,
    pub user_id: i64,
}

/// Monitoring cadence and alert thresholds; thresholds are in hundredths of a
/// percent.
#[derive(Debug, Clone)]
pub struct MonitoringConfig {
    pub check_interval_secs: u64,
    pub periodic_notification_secs: u64,
    pub change_thresholds: Vec<u32>,
    pub change_window_secs: u64,
}

/// One monitored pair; the optional analysis volume is in fixed-point units.
#[derive(Debug, Clone)]
pub struct RatioPair {
    pub name: String,
    pub symbol_a: String,
    pub symbol_b: String,
    pub analysis_volume: Option<u64>,
}

/// The whole configuration, read once at startup.
#[derive(Debug, Clone)]
pub struct Config {
    pub telegram: TelegramConfig,
    pub monitoring: MonitoringConfig,
    pub database: DatabaseConfig,
    pub ratio_pairs: Vec<RatioPair>,
}

/// A pair definition names both symbols.
pub open spec fn pair_symbols_ok(p: RatioPair) -> bool {
    p.symbol_a@.len() > 0 && p.symbol_b@.len() > 0
}

impl Config {
    /// What `validate` accepts: a token, at least one pair, and no pair with
    /// an empty symbol.
    pub open spec fn spec_valid(&self) -> bool {
        &&& self.telegram.token@.len() > 0
        &&& self.ratio_pairs@.len() > 0
        &&& forall|i: int| 0 <= i < self.ratio_pairs@.len() ==> pair_symbols_ok(
            #[trigger] self.ratio_pairs@[i],
        )
    }

    /// Reject a configuration with an empty notification token, no pairs, or
    /// a pair with an empty symbol.
    pub fn validate(&self) -> (r: Result<(), RatioError>)
        ensures
            r is Ok <==> self.spec_valid(),
            r is Err ==> r->Err_0 is Config,
            self.telegram.token@.len() == 0 ==> (r->Err_0 matches RatioError::Config(m) && m@
                == "Telegram token cannot be empty"@),
            self.telegram.token@.len() > 0 && self.ratio_pairs@.len() == 0 ==> (r->Err_0 matches
                RatioError::Config(m) && m@ == "At least one ratio pair must be configured"@),
    {
        if self.telegram.token.as_str().is_empty() {
            return Err(RatioError::Config("Telegram token cannot be empty".to_owned()));
        }
        if self.ratio_pairs.len() == 0 {
            return Err(RatioError::Config("At least one ratio pair must be configured".to_owned()));
        }
        let mut i: usize = 0;
        while i < self.ratio_pairs.len()
            invariant
                i <= self.ratio_pairs@.len(),
                self.telegram.token@.len() > 0,
                self.ratio_pairs@.len() > 0,
                forall|k: int| 0 <= k < i ==> pair_symbols_ok(#[trigger] self.ratio_pairs@[k]),
            decreases self.ratio_pairs@.len() - i,
        {
            let pair = &self.ratio_pairs[i];
            if pair.symbol_a.as_str().is_empty() || pair.symbol_b.as_str().is_empty() {
                let mut m = "Symbols cannot be empty in ratio pair: ".to_owned();
                m.append(pair.name.as_str());
                return Err(RatioError::Config(m));
            }
            i = i + 1;
        }
        Ok(())
    }
}

} // verus!
