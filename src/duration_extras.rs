use vstd::prelude::*;
use vstd::string::StringExecFns;

verus! {

/// The character of a decimal digit.
pub open spec fn digit_char(d: nat) -> char {
    if d == 0 {
        '0'
    } else if d == 1 {
        '1'
    } else if d == 2 {
        '2'
    } else if d == 3 {
        '3'
    } else if d == 4 {
        '4'
    } else if d == 5 {
        '5'
    } else if d == 6 {
        '6'
    } else if d == 7 {
        '7'
    } else if d == 8 {
        '8'
    } else {
        '9'
    }
}

/// `n` in decimal, without leading zeros.
pub open spec fn decimal(n: nat) -> Seq<char>
    decreases n,
{
    if n < 10 {
        seq![digit_char(n)]
    } else {
        decimal(n / 10).push(digit_char(n % 10))
    }
}

/// A number of seconds as `"{h}h {m}m {s}s"`, or as `"{m}m {s}s"` when it
/// is under an hour; minutes and seconds run below 60.
pub open spec fn duration_text(total: nat) -> Seq<char> {
    let h = total / 3600;
    let m = (total / 60) % 60;
    let s = total % 60;
    let tail = decimal(m) + seq!['m', ' '] + decimal(s) + seq!['s'];
    if h > 0 {
        decimal(h) + seq!['h', ' '] + tail
    } else {
        tail
    }
}

fn digit_str(d: u64) -> (r: &'static str)
    requires
        d < 10,
    ensures
        r@ == seq![digit_char(d as nat)],
{
    match d {
        0 => {
            proof {
                reveal_strlit("0");
            }
            "0"
        },
        1 => {
            proof {
                reveal_strlit("1");
            }
            "1"
        },
        2 => {
            proof {
                reveal_strlit("2");
            }
            "2"
        },
        3 => {
            proof {
                reveal_strlit("3");
            }
            "3"
        },
        4 => {
            proof {
                reveal_strlit("4");
            }
            "4"
        },
        5 => {
            proof {
                reveal_strlit("5");
            }
            "5"
        },
        6 => {
            proof {
                reveal_strlit("6");
            }
            "6"
        },
        7 => {
            proof {
                reveal_strlit("7");
            }
            "7"
        },
        8 => {
            proof {
                reveal_strlit("8");
            }
            "8"
        },
        _ => {
            proof {
                reveal_strlit("9");
            }
            "9"
        },
    }
}

/// Appends `n` in decimal.
fn push_decimal(s: &mut String, n: u64)
    ensures
        final(s)@ == old(s)@ + decimal(n as nat),
    decreases n,
{
    if n >= 10 {
        push_decimal(s, n / 10);
    }
    s.append(digit_str(n % 10));
    proof {
        if n >= 10 {
            assert(old(s)@ + decimal(n as nat) =~= old(s)@ + decimal((n / 10) as nat) + seq![
                digit_char((n % 10) as nat),
            ]);
        } else {
            assert(n % 10 == n);
        }
    }
}

/// A number of seconds written as hours, minutes and seconds.
pub fn format_seconds(seconds: u64) -> (r: String)
    ensures
        r@ == duration_text(seconds as nat),
{
    let minutes = seconds / 60;
    let secs = seconds % 60;
    let hours = minutes / 60;
    let minutes = minutes % 60;
    let mut text = String::new();
    if hours > 0 {
        push_decimal(&mut text, hours);
        proof {
            reveal_strlit("h ");
        }
        text.append("h ");
    }
    push_decimal(&mut text, minutes);
    proof {
        reveal_strlit("m ");
        reveal_strlit("s");
    }
    text.append("m ");
    push_decimal(&mut text, secs);
    text.append("s");
    proof {
        assert(hours == seconds / 3600) by {
            assert(seconds / 60 / 60 == seconds / 3600) by (nonlinear_arith);
        }
        let tail = decimal(minutes as nat) + seq!['m', ' '] + decimal(secs as nat) + seq!['s'];
        if hours > 0 {
            assert(text@ =~= decimal(hours as nat) + seq!['h', ' '] + tail);
        } else {
            assert(text@ =~= tail);
        }
    }
    text
}

/// Relies on `Duration::as_secs`: the whole seconds of a duration.
#[verifier::external_body]
fn whole_seconds(duration: core::time::Duration) -> (r: u64) {
    duration.as_secs()
}

/// A duration, in whole seconds, written as hours, minutes and seconds.
pub fn format_duration(duration: core::time::Duration) -> (r: String)
    ensures
        exists|seconds: u64| r@ == duration_text(seconds as nat),
{
    let seconds = whole_seconds(duration);
    format_seconds(seconds)
}

} // verus!
