//! The tracker's stats ring: periodic snapshots of the global totals in
//! a bounded history, and the reply of the stats endpoint.

use vstd::prelude::*;
use vstd::string::StringSliceAdditionalSpecFns;
use crate::http::{get_param, lemma_lookup_at, lemma_lookup_none, lookup_param};
use crate::numerals::{lemma_digits_val_nonneg, parse_int, parse_u64, sign_magnitude};
use vstd::utf8::encode_utf8;
use crate::tracker_status::CurrentTrackerStats;

verus! {

/// Seconds of history the ring holds at most: thirty days.
pub const MAX_STATS_SECONDS: i64 = 2592000;

/// The snapshot history, one entry per bucket.
#[derive(Debug)]
pub struct StatsUpdater {
    pub stats_history: Vec<CurrentTrackerStats>,
    pub bucket_seconds: i64,
}

impl StatsUpdater {
    /// An empty history with the given bucket length in seconds.
    pub fn new(bucket_seconds: i64) -> (r: StatsUpdater)
        ensures
            r.stats_history@.len() == 0,
            r.bucket_seconds == bucket_seconds,
    {
        StatsUpdater { stats_history: Vec::new(), bucket_seconds }
    }

    /// Appends a snapshot, dropping the oldest entry once the ring
    /// covers more than the retention window.
    pub fn record(&mut self, stats: CurrentTrackerStats)
        requires
            0 < old(self).bucket_seconds,
            old(self).stats_history@.len() < usize::MAX,
        ensures
            final(self).bucket_seconds == old(self).bucket_seconds,
            final(self).stats_history@ == if old(self).bucket_seconds * old(
                self,
            ).stats_history@.len() > MAX_STATS_SECONDS {
                old(self).stats_history@.skip(1).push(stats)
            } else {
                old(self).stats_history@.push(stats)
            },
    {
        let len = self.stats_history.len();
        let bs = self.bucket_seconds;
        let over: bool = if len as u64 > MAX_STATS_SECONDS as u64 {
            proof {
                assert(bs * (len as int) >= len as int) by (nonlinear_arith)
                    requires
                        bs >= 1,
                        len as int >= 0,
                ;
            }
            true
        } else {
            proof {
                assert(0 <= (bs as i128) * (len as i128) <= (i64::MAX as i128) * 2592000)
                    by (nonlinear_arith)
                    requires
                        0 <= bs as i128 <= i64::MAX as i128,
                        0 <= len as i128 <= 2592000,
                ;
            }
            let hist_secs: i128 = (bs as i128) * (len as i128);
            hist_secs > MAX_STATS_SECONDS as i128
        };
        if over {
            proof {
                if len == 0 {
                    assert(bs * (len as int) == 0) by (nonlinear_arith)
                        requires
                            len as int == 0,
                    ;
                }
            }
            let _ = self.stats_history.remove(0);
            proof {
                assert(self.stats_history@ =~= old(self).stats_history@.skip(1));
            }
        }
        self.stats_history.push(stats);
    }

    /// The tail of the history covering the asked-for window: one entry
    /// per bucket, the whole history when more is asked than exists.
    pub fn get_history(&self, since_seconds: i64) -> (r: Vec<CurrentTrackerStats>)
        requires
            self.bucket_seconds > 0,
            since_seconds >= 0,
        ensures
            r@ == if since_seconds / self.bucket_seconds > self.stats_history@.len() {
                self.stats_history@
            } else {
                self.stats_history@.skip(
                    self.stats_history@.len() - since_seconds / self.bucket_seconds,
                )
            },
    {
        let wanted = since_seconds / self.bucket_seconds;
        proof {
            assert(since_seconds / self.bucket_seconds >= 0) by (nonlinear_arith)
                requires
                    since_seconds >= 0,
                    self.bucket_seconds > 0,
            ;
        }
        let len = self.stats_history.len();
        let start: usize = if (wanted as u64) > (len as u64) {
            0
        } else {
            len - wanted as usize
        };
        let mut out: Vec<CurrentTrackerStats> = Vec::new();
        let mut i: usize = start;
        while i < len
            invariant
                start <= i <= len,
                len == self.stats_history@.len(),
                out@ == self.stats_history@.subrange(start as int, i as int),
            decreases len - i,
        {
            out.push(self.stats_history[i]);
            i = i + 1;
            assert(out@ =~= self.stats_history@.subrange(start as int, i as int));
        }
        proof {
            if (wanted as u64) > (len as u64) {
                assert(out@ =~= self.stats_history@);
            } else {
                assert(out@ =~= self.stats_history@.skip(len - wanted as int));
            }
        }
        out
    }

    /// The bucket length in seconds.
    pub fn get_timeout(&self) -> (r: i64)
        ensures
            r == self.bucket_seconds,
    {
        self.bucket_seconds
    }
}

/// The `since` hours of a stats query, when the parameter is present,
/// unsigned, and parses.
pub open spec fn spec_since_hours(ps: Seq<(String, String)>) -> Option<int> {
    match lookup_param(ps, "since"@) {
        Some(v) => {
            let b = encode_utf8(v);
            if b.len() > 0 && b[0] != 43 && b[0] != 45 && parse_int(b) is Some {
                Some(parse_int(b)->Some_0)
            } else {
                None
            }
        },
        None => None,
    }
}

/// The seconds a `since` value asks for, capped at the clock type's
/// range.
pub open spec fn spec_since_seconds(h: int) -> int {
    if h > i64::MAX / 3600 {
        i64::MAX as int
    } else {
        h * 3600
    }
}

/// The stats endpoint's reply: the bucket size in minutes, and the
/// snapshots of the asked-for window.
#[derive(Debug)]
pub struct StatsResponse {
    pub bucket_size_in_minutes: i64,
    pub content: Vec<CurrentTrackerStats>,
}

pub enum StatsResponseError {
    InvalidQueryParamError,
}

/// The reply that an accepted stats query yields: the bucket size in
/// minutes, and as much of the recorded history as the queried horizon
/// covers, newest buckets last.
pub open spec fn stats_reply_ok(
    ps: Seq<(String, String)>,
    updater: StatsUpdater,
    resp: StatsResponse,
) -> bool {
    spec_since_hours(ps) matches Some(h) && resp.bucket_size_in_minutes == updater.bucket_seconds
        / 60 && resp.content@ == (if spec_since_seconds(h) / (updater.bucket_seconds as int)
        > updater.stats_history@.len() {
        updater.stats_history@
    } else {
        updater.stats_history@.skip(
            updater.stats_history@.len() - spec_since_seconds(h) / (updater.bucket_seconds as int),
        )
    })
}

impl StatsResponse {
    /// Builds the reply from the query parameters: the `since` value,
    /// in hours, decides how much history is returned. Fails exactly
    /// when `since` is missing or does not parse as a number.
    pub fn from(params: &Vec<(String, String)>, updater: &StatsUpdater) -> (r: Result<
        StatsResponse,
        StatsResponseError,
    >)
        requires
            updater.bucket_seconds > 0,
        ensures
            r is Ok <==> spec_since_hours(params@) is Some,
            r matches Ok(resp) ==> stats_reply_ok(params@, *updater, resp),
    {
        let since = match get_param(params, "since") {
            Some(v) => {
                proof {
                    let i = choose|i: int|
                        0 <= i < params@.len() && #[trigger] params@[i].0@ == "since"@ && v@
                            == params@[i].1@ && (forall|j: int|
                            i < j < params@.len() ==> params@[j].0@ != "since"@);
                    lemma_lookup_at(params@, "since"@, i);
                }
                v
            },
            None => {
                proof {
                    lemma_lookup_none(params@, "since"@);
                }
                return Err(StatsResponseError::InvalidQueryParamError);
            },
        };
        let since_hours = match parse_u64(since.as_str().as_bytes()) {
            Some(v) => v,
            None => {
                proof {
                    if spec_since_hours(params@) is Some {
                        let b = encode_utf8(since@);
                        assert(sign_magnitude(b) == b);
                        lemma_digits_val_nonneg(sign_magnitude(b));
                    }
                }
                return Err(StatsResponseError::InvalidQueryParamError);
            },
        };
        let since_secs: i64 = if since_hours > (i64::MAX / 3600) as u64 {
            i64::MAX
        } else {
            let sh: i64 = since_hours as i64;
            proof {
                assert(sh * 3600 <= i64::MAX) by (nonlinear_arith)
                    requires
                        0 <= sh <= i64::MAX / 3600,
                ;
                assert(sh * 3600 >= 0) by (nonlinear_arith)
                    requires
                        sh >= 0,
                ;
            }
            sh * 3600
        };
        let history = updater.get_history(since_secs);
        Ok(StatsResponse { bucket_size_in_minutes: updater.bucket_seconds / 60, content: history })
    }
}

} // verus!
