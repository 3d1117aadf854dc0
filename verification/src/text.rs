use vstd::prelude::*;
use vstd::string::*;

verus! {

/// The decimal digit character for `d < 10`.
pub open spec fn digit_char(d: nat) -> char {
    if d == 0 { '0' }
    else if d == 1 { '1' }
    else if d == 2 { '2' }
    else if d == 3 { '3' }
    else if d == 4 { '4' }
    else if d == 5 { '5' }
    else if d == 6 { '6' }
    else if d == 7 { '7' }
    else if d == 8 { '8' }
    else { '9' }
}

/// The decimal digits of a natural number, most significant first, without leading zeros.
pub open spec fn decimal_digits(n: nat) -> Seq<char>
    decreases n,
{
    if n < 10 {
        seq![digit_char(n)]
    } else {
        decimal_digits(n / 10).push(digit_char(n % 10))
    }
}

/// The decimal text of an integer, as `{}` formats it.
pub open spec fn decimal(v: int) -> Seq<char> {
    if v < 0 {
        seq!['-'] + decimal_digits((-v) as nat)
    } else {
        decimal_digits(v as nat)
    }
}

/// A new string holding the characters of `s`.
pub fn owned(s: &str) -> (r: String)
    ensures
        r@ == s@,
{
    String::from_str(s)
}

/// Appends the characters of `t` to `s`.
pub fn push_text(s: &mut String, t: &str)
    ensures
        final(s)@ == old(s)@ + t@,
{
    s.append(t);
}

fn push_digit(s: &mut String, d: u64)
    requires
        d < 10,
    ensures
        final(s)@ == old(s)@.push(digit_char(d as nat)),
{
    let t = if d == 0 { "0" } else if d == 1 { "1" } else if d == 2 { "2" } else if d == 3 {
        "3"
    } else if d == 4 { "4" } else if d == 5 { "5" } else if d == 6 { "6" } else if d == 7 {
        "7"
    } else if d == 8 { "8" } else { "9" };
    proof {
        reveal_strlit("0");
        reveal_strlit("1");
        reveal_strlit("2");
        reveal_strlit("3");
        reveal_strlit("4");
        reveal_strlit("5");
        reveal_strlit("6");
        reveal_strlit("7");
        reveal_strlit("8");
        reveal_strlit("9");
        assert(t@ =~= seq![digit_char(d as nat)]);
    }
    s.append(t);
    proof {
        assert(old(s)@ + t@ =~= old(s)@.push(digit_char(d as nat)));
    }
}

fn push_digits(s: &mut String, n: u64)
    ensures
        final(s)@ == old(s)@ + decimal_digits(n as nat),
    decreases n,
{
    if n >= 10 {
        push_digits(s, n / 10);
        push_digit(s, n % 10);
        proof {
            assert(decimal_digits(n as nat) == decimal_digits((n / 10) as nat).push(
                digit_char((n % 10) as nat),
            ));
            assert(final(s)@ =~= old(s)@ + decimal_digits(n as nat));
        }
    } else {
        push_digit(s, n);
        proof {
            assert(decimal_digits(n as nat) == seq![digit_char(n as nat)]);
            assert(final(s)@ =~= old(s)@ + decimal_digits(n as nat));
        }
    }
}

/// Appends the decimal text of `v` to `s`.
pub fn push_decimal(s: &mut String, v: i64)
    requires
        v > i64::MIN,
    ensures
        final(s)@ == old(s)@ + decimal(v as int),
{
    if v < 0 {
        push_text(s, "-");
        proof {
            reveal_strlit("-");
        }
        let n: u64 = (-v) as u64;
        push_digits(s, n);
        proof {
            assert(final(s)@ =~= old(s)@ + decimal(v as int));
        }
    } else {
        push_digits(s, v as u64);
    }
}

/// The decimal text of `v`, as `{}` formats it.
pub fn decimal_text(v: i64) -> (r: String)
    requires
        v > i64::MIN,
    ensures
        r@ == decimal(v as int),
{
    let mut s = owned("");
    proof {
        reveal_strlit("");
    }
    push_decimal(&mut s, v);
    proof {
        assert(s@ =~= decimal(v as int));
    }
    s
}


/// The text `a`, then the decimal text of `v`, then `b`.
pub fn text_with_number(a: &str, v: i64, b: &str) -> (r: String)
    requires
        v > i64::MIN,
    ensures
        r@ == a@ + decimal(v as int) + b@,
{
    let mut s = owned(a);
    push_decimal(&mut s, v);
    push_text(&mut s, b);
    s
}

/// The characters of `name`, then the text `b`.
pub fn name_with(name: &String, b: &str) -> (r: String)
    ensures
        r@ == name@ + b@,
{
    let mut s = name.clone();
    push_text(&mut s, b);
    s
}
} // verus!
