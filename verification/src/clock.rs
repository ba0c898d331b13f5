//! The time of day as the store writes it down.

use vstd::prelude::*;
use vstd::string::StringExecFns;

verus! {

/// The decimal digit of `d`.
pub open spec fn digit(d: int) -> char {
    if d == 0 {
        '0'
    } else if d == 1 {
        '1'
    } else if d == 2 {
        '2'
    } else if d == 3 {
        '3'
    } else if d == 4 {
        '4'
    } else if d == 5 {
        '5'
    } else if d == 6 {
        '6'
    } else if d == 7 {
        '7'
    } else if d == 8 {
        '8'
    } else {
        '9'
    }
}

/// The number `n` written in decimal, without leading zeros.
pub open spec fn decimal(n: nat) -> Seq<char>
    decreases n,
{
    if n < 10 {
        seq![digit(n as int)]
    } else {
        decimal(n / 10).push(digit((n % 10) as int))
    }
}

/// The text of the decimal digit of `d`.
fn digit_str(d: u64) -> (r: &'static str)
    requires
        d < 10,
    ensures
        r@ == seq![digit(d as int)],
{
    proof {
        reveal_strlit("0");
        reveal_strlit("1");
        reveal_strlit("2");
        reveal_strlit("3");
        reveal_strlit("4");
        reveal_strlit("5");
        reveal_strlit("6");
        reveal_strlit("7");
        reveal_strlit("8");
        reveal_strlit("9");
    }
    let r = if d == 0 {
        "0"
    } else if d == 1 {
        "1"
    } else if d == 2 {
        "2"
    } else if d == 3 {
        "3"
    } else if d == 4 {
        "4"
    } else if d == 5 {
        "5"
    } else if d == 6 {
        "6"
    } else if d == 7 {
        "7"
    } else if d == 8 {
        "8"
    } else {
        "9"
    };
    assert(r@ =~= seq![digit(d as int)]);
    r
}

/// The number `n` written in decimal, without leading zeros.
pub fn decimal_text(n: u64) -> (r: String)
    ensures
        r@ == decimal(n as nat),
{
    let mut rest: u64 = n / 10;
    let mut out = String::from_str(digit_str(n % 10));
    proof {
        assert(Seq::<char>::empty().push(digit((n % 10) as int)) =~= seq![digit((n % 10) as int)]);
        if n >= 10 {
            assert(decimal(n as nat) =~= decimal(rest as nat) + out@);
        }
    }
    while rest > 0
        invariant
            decimal(n as nat) == (if rest > 0 {
                decimal(rest as nat) + out@
            } else {
                out@
            }),
        decreases rest,
    {
        let d = digit_str(rest % 10);
        let ghost tail = out@;
        out = String::from_str(d).concat(out.as_str());
        proof {
            if rest < 10 {
                assert(decimal(rest as nat) + tail =~= out@);
            } else {
                assert(decimal(rest as nat) + tail =~= decimal((rest / 10) as nat) + out@);
            }
        }
        rest = rest / 10;
    }
    out
}

/// `std::time::SystemTime::now`, as the whole seconds that it lies after the
/// Unix epoch, and nothing for a clock that is set before it. Nothing is
/// claimed of the reading.
#[verifier::external_body]
fn seconds_since_epoch() -> Option<u64> {
    match std::time::SystemTime::now().duration_since(std::time::UNIX_EPOCH) {
        Ok(elapsed) => Some(elapsed.as_secs()),
        Err(_) => None,
    }
}

/// The seconds that a reading of the clock counts: a clock that is set before
/// the Unix epoch counts none.
pub open spec fn seconds_of(reading: Option<u64>) -> nat {
    match reading {
        Some(seconds) => seconds as nat,
        None => 0,
    }
}

/// A reading of the clock as the store writes it down: its seconds in
/// decimal.
pub fn reading_text(reading: Option<u64>) -> (r: String)
    ensures
        r@ == decimal(seconds_of(reading)),
{
    match reading {
        Some(seconds) => decimal_text(seconds),
        None => decimal_text(0),
    }
}

/// The present time: whole seconds since the Unix epoch, in decimal, and `0`
/// for a clock that is set before it.
pub fn chrono_lite_now() -> (r: String)
    ensures
        exists|seconds: u64| r@ == #[trigger] decimal(seconds as nat),
{
    let reading = seconds_since_epoch();
    let r = reading_text(reading);
    proof {
        let seconds: u64 = match reading {
            Some(seconds) => seconds,
            None => 0,
        };
        assert(r@ == decimal(seconds as nat));
    }
    r
}

} // verus!
