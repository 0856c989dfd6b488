//! The decisions the HTTP API makes on its queries and stored rows.

use crate::ohlcv::decimal_i128;
use crate::ohlcv::parse_i128;
use crate::text::same_text;
use std::sync::Arc;
use vstd::prelude::*;

verus! {

#[derive(Clone)]
pub struct AppState {
    pub db_path: Arc<String>,
}

/// The slot range a contention query asks for: unbounded on a side it
/// leaves out.
pub fn contention_slot_range(from: Option<i64>, to: Option<i64>) -> (res: (i64, i64))
    ensures
        res.0 == (match from {
            Some(f) => f,
            None => i64::MIN,
        }),
        res.1 == (match to {
            Some(t) => t,
            None => i64::MAX,
        }),
{
    let lo = match from {
        Some(f) => f,
        None => i64::MIN,
    };
    let hi = match to {
        Some(t) => t,
        None => i64::MAX,
    };
    (lo, hi)
}

/// Candles are served for the 1-minute and 5-minute intervals only.
pub fn is_supported_interval(interval: &str) -> (res: bool)
    ensures
        res == (interval@ == "1m"@ || interval@ == "5m"@),
{
    same_text(interval, "1m") || same_text(interval, "5m")
}

/// The list of integers that `serde_json` decodes from a text, `None` where
/// it reports an error.
pub uninterp spec fn json_i64_list(text: Seq<char>) -> Option<Seq<i64>>;

/// Calls `serde_json::from_str::<Vec<i64>>`. Its contract claims only that
/// the result is the named decoding of the text.
#[verifier::external_body]
fn decode_i64_list(text: &str) -> (res: Option<Vec<i64>>)
    ensures
        match res {
            Some(v) => json_i64_list(text@) == Some(v@),
            None => json_i64_list(text@) is None,
        },
{
    serde_json::from_str::<Vec<i64>>(text).ok()
}

/// The step widths stored as JSON text; a text that does not decode counts
/// as no steps.
pub fn step_widths_from_json(text: &str) -> (res: Vec<i64>)
    ensures
        res@ == (match json_i64_list(text@) {
            Some(v) => v,
            None => Seq::<i64>::empty(),
        }),
{
    match decode_i64_list(text) {
        Some(v) => v,
        None => Vec::new(),
    }
}

/// The text read as a `u64`, as `str::parse::<u64>` reads it: an optional
/// `+`, then one or more ASCII digits, and a value in range.
pub open spec fn decimal_u64(s: Seq<char>) -> Option<u64> {
    if s.len() > 0 && s[0] == '-' {
        None
    } else {
        match decimal_i128(s) {
            Some(v) => if 0 <= v <= u64::MAX {
                Some(v as u64)
            } else {
                None
            },
            None => None,
        }
    }
}

/// A setting given as text, read as a `u64`; the default where it is absent
/// or does not read.
pub fn u64_or(text: Option<&str>, default: u64) -> (res: u64)
    ensures
        res == (match text {
            Some(t) => match decimal_u64(t@) {
                Some(v) => v,
                None => default,
            },
            None => default,
        }),
{
    match text {
        Some(t) => {
            if t.unicode_len() > 0 && t.get_char(0) == '-' {
                return default;
            }
            match parse_i128(t) {
                Some(v) => {
                    if 0 <= v && v <= 18446744073709551615i128 {
                        v as u64
                    } else {
                        default
                    }
                },
                None => default,
            }
        },
        None => default,
    }
}

} // verus!
