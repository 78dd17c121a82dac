//! Building messages from string pieces and numbers.

use vstd::prelude::*;
use vstd::string::StringExecFns;

verus! {

/// The character of decimal digit `d`.
pub open spec fn digit_char(d: nat) -> char {
    (48 + d) as char
}

/// Decimal notation of `n`, most significant digit first, without leading
/// zeros.
pub open spec fn decimal(n: nat) -> Seq<char>
    decreases n,
{
    if n < 10 {
        seq![digit_char(n)]
    } else {
        decimal(n / 10).push(digit_char(n % 10))
    }
}

/// The text of `a` followed by that of `b`.
pub(crate) fn join(a: &str, b: &str) -> (s: String)
    ensures
        s@ == a@ + b@,
{
    let mut s = a.to_owned();
    s.append(b);
    s
}

/// The digit `d` as text.
fn digit_text(d: usize) -> (s: &'static str)
    requires
        d < 10,
    ensures
        s@ == seq![digit_char(d as nat)],
{
    match d {
        0 => {
            proof {
                reveal_strlit("0");
            }
            "0"
        },
        1 => {
            proof {
                reveal_strlit("1");
            }
            "1"
        },
        2 => {
            proof {
                reveal_strlit("2");
            }
            "2"
        },
        3 => {
            proof {
                reveal_strlit("3");
            }
            "3"
        },
        4 => {
            proof {
                reveal_strlit("4");
            }
            "4"
        },
        5 => {
            proof {
                reveal_strlit("5");
            }
            "5"
        },
        6 => {
            proof {
                reveal_strlit("6");
            }
            "6"
        },
        7 => {
            proof {
                reveal_strlit("7");
            }
            "7"
        },
        8 => {
            proof {
                reveal_strlit("8");
            }
            "8"
        },
        9 => {
            proof {
                reveal_strlit("9");
            }
            "9"
        },
        _ => {
            proof {
                assert(false);
            }
            ""
        },
    }
}

/// The decimal notation of `n`.
pub(crate) fn usize_text(n: usize) -> (s: String)
    ensures
        s@ == decimal(n as nat),
    decreases n,
{
    if n < 10 {
        digit_text(n).to_owned()
    } else {
        let mut s = usize_text(n / 10);
        let d = digit_text(n % 10);
        s.append(d);
        assert(decimal((n / 10) as nat) + seq![digit_char((n % 10) as nat)] =~= decimal((n / 10) as nat).push(
            digit_char((n % 10) as nat),
        ));
        s
    }
}

/// The decimal notation of `n`.
pub(crate) fn u32_text(n: u32) -> (s: String)
    ensures
        s@ == decimal(n as nat),
{
    usize_text(n as usize)
}

/// `text` followed by the decimal notation of `n`.
pub(crate) fn with_index(text: &str, n: usize) -> (s: String)
    ensures
        s@ == text@ + decimal(n as nat),
{
    let digits = usize_text(n);
    join(text, digits.as_str())
}

} // verus!
