//! Texts that hold numbers.
use vstd::prelude::*;

verus! {

/// The character of a digit.
pub open spec fn digit(d: int) -> char {
    (48 + d) as char
}

/// A number in decimal.
pub open spec fn decimal(x: int) -> Seq<char>
    decreases
            if x < 0 {
                1 - x
            } else {
                x
            },
{
    if x < 0 {
        seq!['-'] + decimal(-x)
    } else if x < 10 {
        seq![digit(x)]
    } else {
        decimal(x / 10).push(digit(x % 10))
    }
}

/// The number that digits make.
pub open spec fn number_in(text: Seq<char>) -> int
    decreases text.len(),
{
    if text.len() == 0 {
        0
    } else {
        10 * number_in(text.drop_last()) + (text.last() as int - '0' as int)
    }
}

/// A number in decimal is read back as that number; it has no zero in front, and a sign where
/// it is negative.
pub proof fn law_decimal(x: int)
    ensures
        x >= 0 ==> number_in(decimal(x)) == x && decimal(x).len() > 0,
        x > 0 ==> decimal(x)[0] != '0',
        x < 0 ==> decimal(x) == seq!['-'] + decimal(-x) && number_in(decimal(x).skip(1)) == -x,
    decreases
            if x < 0 {
                1 - x
            } else {
                x
            },
{
    if x < 0 {
        law_decimal(-x);
        assert(decimal(x).skip(1) =~= decimal(-x));
    } else if x < 10 {
        let d = seq![digit(x)];
        assert(d.drop_last() =~= Seq::<char>::empty());
        assert(number_in(d.drop_last()) == 0);
    } else {
        law_decimal(x / 10);
        let d = decimal(x / 10).push(digit(x % 10));
        assert(d.drop_last() =~= decimal(x / 10));
        assert(d[0] == decimal(x / 10)[0]);
    }
}

/// The text of a digit.
fn digit_text(d: u128) -> (out: &'static str)
    requires
        d < 10,
    ensures
        out@ == seq![digit(d as int)],
{
    proof {
        reveal_strlit("0");
        reveal_strlit("1");
        reveal_strlit("2");
        reveal_strlit("3");
        reveal_strlit("4");
        reveal_strlit("5");
        reveal_strlit("6");
        reveal_strlit("7");
        reveal_strlit("8");
        reveal_strlit("9");
    }
    let out = if d == 0 {
        "0"
    } else if d == 1 {
        "1"
    } else if d == 2 {
        "2"
    } else if d == 3 {
        "3"
    } else if d == 4 {
        "4"
    } else if d == 5 {
        "5"
    } else if d == 6 {
        "6"
    } else if d == 7 {
        "7"
    } else if d == 8 {
        "8"
    } else {
        "9"
    };
    assert(out@ =~= seq![digit(d as int)]);
    out
}

/// Appends a number that is not negative.
fn append_digits(text: &mut String, x: u128)
    ensures
        final(text)@ == old(text)@ + decimal(x as int),
    decreases x,
{
    if x >= 10 {
        append_digits(text, x / 10);
    }
    let last = digit_text(x % 10);
    text.append(last);
    assert(text@ =~= old(text)@ + decimal(x as int));
}

/// A text with a number at its end.
pub fn with_number(text: String, x: i128) -> (out: String)
    ensures
        out@ == text@ + decimal(x as int),
{
    let mut out = text;
    if x < 0 {
        proof {
            reveal_strlit("-");
            assert("-"@ =~= seq!['-']);
        }
        out.append("-");
        let y: u128 = (-(x + 1)) as u128 + 1;
        append_digits(&mut out, y);
        assert(out@ =~= text@ + decimal(x as int));
    } else {
        append_digits(&mut out, x as u128);
    }
    out
}

/// A number.
pub fn number(x: i128) -> (out: String)
    ensures
        out@ == decimal(x as int),
{
    let out = with_number(String::new(), x);
    assert(out@ =~= decimal(x as int));
    out
}

/// A label and a number.
pub fn labelled(label: &str, x: i128) -> (out: String)
    ensures
        out@ == label@ + decimal(x as int),
{
    with_number(label.to_owned(), x)
}

/// A text, a label and a number.
pub fn then_labelled(text: String, label: &str, x: i128) -> (out: String)
    ensures
        out@ == text@ + label@ + decimal(x as int),
{
    with_number(text.concat(label), x)
}

} // verus!
