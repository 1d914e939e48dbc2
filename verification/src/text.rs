//! Decimal and hexadecimal text, built character by character.
use vstd::prelude::*;

verus! {

/// The character of a decimal or hexadecimal digit `d < 16`, lower case.
pub open spec fn digit_char(d: int) -> char {
    if d < 10 {
        (48 + d) as char
    } else {
        (87 + d) as char
    }
}

/// The decimal digits of `n`, without leading zeros.
pub open spec fn decimal_text(n: nat) -> Seq<char>
    decreases n,
{
    if n < 10 {
        seq![digit_char(n as int)]
    } else {
        decimal_text(n / 10).push(digit_char((n % 10) as int))
    }
}

/// A character among `0` to `9`.
pub open spec fn is_decimal_digit(c: char) -> bool {
    48 <= (c as int) <= 57
}

/// The number that a text of decimal digits denotes, read most significant
/// digit first.
pub open spec fn numeral_value(s: Seq<char>) -> int
    decreases s.len(),
{
    if s.len() == 0 {
        0
    } else {
        numeral_value(s.drop_last()) * 10 + ((s.last() as int) - 48)
    }
}

/// The decimal text of `n` is a nonempty run of decimal digits, without a leading
/// zero unless `n` is zero, that reads back as `n`.
pub proof fn law_decimal_text_reads_back(n: nat)
    ensures
        decimal_text(n).len() >= 1,
        forall|i: int| 0 <= i < decimal_text(n).len() ==> is_decimal_digit(#[trigger] decimal_text(n)[i]),
        decimal_text(n)[0] == '0' ==> n == 0,
        numeral_value(decimal_text(n)) == n,
    decreases n,
{
    let t = decimal_text(n);
    if n < 10 {
        assert(t.drop_last() =~= Seq::<char>::empty());
        assert(numeral_value(Seq::<char>::empty()) == 0);
        assert((t.last() as int) == 48 + n);
    } else {
        let q = (n / 10) as nat;
        law_decimal_text_reads_back(q);
        assert(t.drop_last() =~= decimal_text(q));
        assert(t[0] == decimal_text(q)[0]);
        assert((t.last() as int) == 48 + n % 10);
        assert(numeral_value(t) == numeral_value(decimal_text(q)) * 10 + ((t.last() as int) - 48));
        assert(q * 10 + n % 10 == n);
    }
}

/// A one-character text for a digit `d < 16`.
pub fn digit_str(d: u64) -> (r: &'static str)
    requires
        d < 16,
    ensures
        r@ == seq![digit_char(d as int)],
{
    proof {
        reveal_strlit("0");
        reveal_strlit("1");
        reveal_strlit("2");
        reveal_strlit("3");
        reveal_strlit("4");
        reveal_strlit("5");
        reveal_strlit("6");
        reveal_strlit("7");
        reveal_strlit("8");
        reveal_strlit("9");
        reveal_strlit("a");
        reveal_strlit("b");
        reveal_strlit("c");
        reveal_strlit("d");
        reveal_strlit("e");
        reveal_strlit("f");
    }
    let r = match d {
        0 => "0",
        1 => "1",
        2 => "2",
        3 => "3",
        4 => "4",
        5 => "5",
        6 => "6",
        7 => "7",
        8 => "8",
        9 => "9",
        10 => "a",
        11 => "b",
        12 => "c",
        13 => "d",
        14 => "e",
        _ => "f",
    };
    proof {
        assert(r@ =~= seq![digit_char(d as int)]);
    }
    r
}

/// Appends the decimal digits of `m` to `out`.
pub fn push_decimal(m: u64, out: &mut String)
    ensures
        final(out)@ == old(out)@ + decimal_text(m as nat),
    decreases m,
{
    if m >= 10 {
        push_decimal(m / 10, out);
    }
    out.append(digit_str(m % 10));
    proof {
        if m >= 10 {
            assert(old(out)@ + decimal_text(m as nat) =~= old(out)@ + decimal_text((m / 10) as nat)
                + seq![digit_char((m % 10) as int)]);
        } else {
            assert(old(out)@ + decimal_text(m as nat) =~= old(out)@ + seq![digit_char((m % 10) as int)]);
        }
    }
}

} // verus!
