//! Length-growth string processing: repeatedly appends to a string the
//! decimal rendering of the string's own current length.

use vstd::prelude::*;

verus! {

/// The decimal digit character for `d` (defined for `d < 10`).
pub open spec fn dec_digit(d: nat) -> char {
    if d == 0 {
        '0'
    } else if d == 1 {
        '1'
    } else if d == 2 {
        '2'
    } else if d == 3 {
        '3'
    } else if d == 4 {
        '4'
    } else if d == 5 {
        '5'
    } else if d == 6 {
        '6'
    } else if d == 7 {
        '7'
    } else if d == 8 {
        '8'
    } else {
        '9'
    }
}

/// The decimal rendering of `n`, most significant digit first and without
/// leading zeros (except for `n == 0`, rendered as `"0"`).
pub open spec fn dec_rep(n: nat) -> Seq<char>
    decreases n,
{
    if n < 10 {
        seq![dec_digit(n)]
    } else {
        dec_rep(n / 10).push(dec_digit(n % 10))
    }
}

/// One growth step: the string followed by the decimal rendering of its
/// own character count.
pub open spec fn lengthened(s: Seq<char>) -> Seq<char> {
    s + dec_rep(s.len() as nat)
}

/// `k` growth steps applied to `s`.
pub open spec fn lengthened_times(s: Seq<char>, k: nat) -> Seq<char>
    decreases k,
{
    if k == 0 {
        s
    } else {
        lengthened(lengthened_times(s, (k - 1) as nat))
    }
}

/// The one-character string holding the decimal digit for `d`.
fn digit_str(d: usize) -> (r: &'static str)
    requires
        d < 10,
    ensures
        r@ == seq![dec_digit(d as nat)],
{
    proof {
        reveal_strlit("0");
        reveal_strlit("1");
        reveal_strlit("2");
        reveal_strlit("3");
        reveal_strlit("4");
        reveal_strlit("5");
        reveal_strlit("6");
        reveal_strlit("7");
        reveal_strlit("8");
        reveal_strlit("9");
    }
    let r: &'static str = if d == 0 {
        "0"
    } else if d == 1 {
        "1"
    } else if d == 2 {
        "2"
    } else if d == 3 {
        "3"
    } else if d == 4 {
        "4"
    } else if d == 5 {
        "5"
    } else if d == 6 {
        "6"
    } else if d == 7 {
        "7"
    } else if d == 8 {
        "8"
    } else {
        "9"
    };
    proof {
        assert(r@ =~= seq![dec_digit(d as nat)]);
    }
    r
}

/// Appends the decimal rendering of `n` to `s`.
fn push_decimal(s: &mut String, n: usize)
    ensures
        final(s)@ == old(s)@ + dec_rep(n as nat),
    decreases n,
{
    if n >= 10 {
        push_decimal(s, n / 10);
    }
    s.append(digit_str(n % 10));
    proof {
        if n < 10 {
            assert(n % 10 == n as int);
            assert(old(s)@ + seq![dec_digit(n as nat)] =~= old(s)@ + dec_rep(n as nat));
        } else {
            assert(dec_rep(n as nat) == dec_rep(n as nat / 10).push(dec_digit(n as nat % 10)));
            assert(old(s)@ + dec_rep((n / 10) as nat) + seq![dec_digit((n % 10) as nat)] =~= old(
                s,
            )@ + dec_rep(n as nat));
        }
    }
}

/// Grows `input` by `iterations` rounds, each appending the decimal
/// rendering of the string's character count at that point.
pub fn string_processing_test(input: &str, iterations: usize) -> (result: String)
    ensures
        result@ == lengthened_times(input@, iterations as nat),
{
    let mut result: String = input.to_owned();
    let mut k: usize = 0;
    while k < iterations
        invariant
            k <= iterations,
            result@ == lengthened_times(input@, k as nat),
        decreases iterations - k,
    {
        let n = result.as_str().unicode_len();
        push_decimal(&mut result, n);
        proof {
            assert(lengthened_times(input@, (k + 1) as nat) == lengthened(
                lengthened_times(input@, k as nat),
            ));
        }
        k = k + 1;
    }
    result
}

} // verus!
