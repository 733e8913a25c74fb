//! The structured error body every failing tool invocation carries: a
//! human-readable message and a machine-readable code.

use vstd::prelude::*;

verus! {

/// A structured tool error: provider failures keep their HTTP-style code,
/// decode failures carry code `0`, validation failures a descriptive code.
#[derive(Debug)]
pub struct ApiErrorBody {
    pub message: String,
    pub code: String,
}

impl ApiErrorBody {
    pub fn new(message: String, code: String) -> (r: Self)
        ensures
            r.message == message,
            r.code == code,
    {
        ApiErrorBody { message, code }
    }
}

/// The character a decimal digit prints as.
pub open spec fn digit_char(d: nat) -> char {
    if d == 0 {
        '0'
    } else if d == 1 {
        '1'
    } else if d == 2 {
        '2'
    } else if d == 3 {
        '3'
    } else if d == 4 {
        '4'
    } else if d == 5 {
        '5'
    } else if d == 6 {
        '6'
    } else if d == 7 {
        '7'
    } else if d == 8 {
        '8'
    } else {
        '9'
    }
}

/// The decimal numeral of a number, most significant digit first and
/// without leading zeros.
pub open spec fn decimal_of(n: nat) -> Seq<char>
    decreases n,
{
    if n < 10 {
        seq![digit_char(n)]
    } else {
        decimal_of(n / 10) + seq![digit_char(n % 10)]
    }
}

fn digit_str(d: u16) -> (r: &'static str)
    requires
        d < 10,
    ensures
        r@ == seq![digit_char(d as nat)],
{
    proof {
        reveal_strlit("0");
        reveal_strlit("1");
        reveal_strlit("2");
        reveal_strlit("3");
        reveal_strlit("4");
        reveal_strlit("5");
        reveal_strlit("6");
        reveal_strlit("7");
        reveal_strlit("8");
        reveal_strlit("9");
        assert("0"@ =~= seq!['0']);
        assert("1"@ =~= seq!['1']);
        assert("2"@ =~= seq!['2']);
        assert("3"@ =~= seq!['3']);
        assert("4"@ =~= seq!['4']);
        assert("5"@ =~= seq!['5']);
        assert("6"@ =~= seq!['6']);
        assert("7"@ =~= seq!['7']);
        assert("8"@ =~= seq!['8']);
        assert("9"@ =~= seq!['9']);
    }
    match d {
        0 => "0",
        1 => "1",
        2 => "2",
        3 => "3",
        4 => "4",
        5 => "5",
        6 => "6",
        7 => "7",
        8 => "8",
        _ => "9",
    }
}

/// Render an HTTP status code as the decimal string an error body carries.
pub fn status_code_string(code: u16) -> (r: String)
    ensures
        r@ == decimal_of(code as nat),
    decreases code,
{
    if code < 10 {
        String::from_str(digit_str(code))
    } else {
        let mut s = status_code_string(code / 10);
        s.append(digit_str(code % 10));
        s
    }
}

/// The message a failed response surfaces: the `message` member extracted
/// from its JSON body when there is one, else the raw body, else the
/// status code's own phrase.
pub fn response_error_message(extracted: Option<String>, body: String, fallback: String) -> (r:
    String)
    ensures
        r == match extracted {
            Some(m) => m,
            None => if body@.len() == 0 {
                fallback
            } else {
                body
            },
        },
{
    match extracted {
        Some(m) => m,
        None => {
            if body.as_str().unicode_len() == 0 {
                fallback
            } else {
                body
            }
        },
    }
}

} // verus!
