//! Messages a worker run sends to its controller, and the helper that
//! renders an ETA as human-readable text.

use vstd::prelude::*;
use vstd::string::StringExecFns;

use crate::engine_types::Progress;

verus! {

/// A message from a running worker to the thread controlling it.
#[derive(Debug, Clone)]
pub enum WorkerMessage {
    /// Free-form log text.
    Log(String),
    /// Processed and total counts for a progress bar.
    Progress { current: u64, total: u64 },
    /// A human-readable estimate of the remaining time.
    Eta(String),
    /// Current memory use, in kilobytes.
    MemUsage(u64),
    /// The run finished normally.
    Done,
    /// The run stopped on the user's request.
    Stopped,
    /// One sampled point of the prime-counting function.
    ExploreData { x: u64, pi_x: u64 },
    /// A prime, its predecessor, and the gap between them.
    GapData { prime: u64, prev_prime: u64, gap: u64 },
    /// A half-open interval's start and its prime count.
    DensityData { interval_start: u64, count: u64 },
    /// Primality flags for a spiral view, in step order.
    SpiralData { primes: Vec<bool>, size: usize },
}

/// The decimal digit character for `0 <= d <= 9`.
pub open spec fn spec_digit_char(d: int) -> char {
    if d == 0 {
        '0'
    } else if d == 1 {
        '1'
    } else if d == 2 {
        '2'
    } else if d == 3 {
        '3'
    } else if d == 4 {
        '4'
    } else if d == 5 {
        '5'
    } else if d == 6 {
        '6'
    } else if d == 7 {
        '7'
    } else if d == 8 {
        '8'
    } else {
        '9'
    }
}

/// The decimal digits of `n`, most significant first.
pub open spec fn spec_decimal(n: int) -> Seq<char>
    decreases n,
{
    if n < 10 {
        seq![spec_digit_char(n)]
    } else {
        spec_decimal(n / 10).push(spec_digit_char(n % 10))
    }
}

/// One decimal digit as text.
fn digit_str(d: u64) -> (r: &'static str)
    requires
        d <= 9,
    ensures
        r@ == seq![spec_digit_char(d as int)],
{
    proof {
        reveal_strlit("0");
        reveal_strlit("1");
        reveal_strlit("2");
        reveal_strlit("3");
        reveal_strlit("4");
        reveal_strlit("5");
        reveal_strlit("6");
        reveal_strlit("7");
        reveal_strlit("8");
        reveal_strlit("9");
    }
    match d {
        0 => "0",
        1 => "1",
        2 => "2",
        3 => "3",
        4 => "4",
        5 => "5",
        6 => "6",
        7 => "7",
        8 => "8",
        _ => "9",
    }
}

/// `n` in decimal.
pub fn u64_to_decimal(n: u64) -> (r: String)
    ensures
        r@ == spec_decimal(n as int),
    decreases n,
{
    if n < 10 {
        digit_str(n).to_owned()
    } else {
        let mut s = u64_to_decimal(n / 10);
        s.append(digit_str(n % 10));
        proof {
            assert(s@ =~= spec_decimal(n as int));
        }
        s
    }
}

/// What `format_eta` renders: seconds below a minute, minutes and seconds
/// below an hour, hours and minutes beyond, and a placeholder while no
/// estimate exists.
pub open spec fn spec_format_eta(eta_secs: Option<u64>) -> Seq<char> {
    match eta_secs {
        None => "Calculating..."@,
        Some(secs) => {
            if secs < 60 {
                spec_decimal(secs as int) + " sec"@
            } else if secs < 3600 {
                let minutes = secs as int / 60;
                let seconds = secs as int % 60;
                if seconds == 0 {
                    spec_decimal(minutes) + " min"@
                } else {
                    spec_decimal(minutes) + " min "@ + spec_decimal(seconds) + " sec"@
                }
            } else {
                let hours = secs as int / 3600;
                let minutes = (secs as int % 3600) / 60;
                if minutes == 0 {
                    spec_decimal(hours) + " h"@
                } else {
                    spec_decimal(hours) + " h "@ + spec_decimal(minutes) + " min"@
                }
            }
        },
    }
}

/// Renders an ETA for display, switching units with its magnitude.
pub fn format_eta(eta_secs: Option<u64>) -> (r: String)
    ensures
        r@ == spec_format_eta(eta_secs),
{
    proof {
        reveal_strlit("Calculating...");
        reveal_strlit(" sec");
        reveal_strlit(" min");
        reveal_strlit(" min ");
        reveal_strlit(" h");
        reveal_strlit(" h ");
    }
    match eta_secs {
        None => String::from_str("Calculating..."),
        Some(secs) => {
            if secs < 60 {
                let mut s = u64_to_decimal(secs);
                s.append(" sec");
                proof {
                    assert(s@ =~= spec_format_eta(eta_secs));
                }
                s
            } else if secs < 3600 {
                let minutes = secs / 60;
                let seconds = secs % 60;
                if seconds == 0 {
                    let mut s = u64_to_decimal(minutes);
                    s.append(" min");
                    proof {
                        assert(s@ =~= spec_format_eta(eta_secs));
                    }
                    s
                } else {
                    let mut s = u64_to_decimal(minutes);
                    s.append(" min ");
                    let t = u64_to_decimal(seconds);
                    s.append(t.as_str());
                    s.append(" sec");
                    proof {
                        assert(s@ =~= spec_format_eta(eta_secs));
                    }
                    s
                }
            } else {
                let hours = secs / 3600;
                let minutes = (secs % 3600) / 60;
                if minutes == 0 {
                    let mut s = u64_to_decimal(hours);
                    s.append(" h");
                    proof {
                        assert(s@ =~= spec_format_eta(eta_secs));
                    }
                    s
                } else {
                    let mut s = u64_to_decimal(hours);
                    s.append(" h ");
                    let t = u64_to_decimal(minutes);
                    s.append(t.as_str());
                    s.append(" min");
                    proof {
                        assert(s@ =~= spec_format_eta(eta_secs));
                    }
                    s
                }
            }
        },
    }
}

} // verus!
