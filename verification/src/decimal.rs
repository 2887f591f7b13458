//! Decimal text of integers.
use vstd::prelude::*;
use vstd::string::StringExecFns;

verus! {

pub open spec fn digit(d: int) -> char {
    (48 + d) as char
}

/// `n` in decimal digits, without leading zeros.
pub open spec fn digits(n: nat) -> Seq<char>
    decreases n,
{
    if n < 10 {
        seq![digit(n as int)]
    } else {
        digits(n / 10).push(digit((n % 10) as int))
    }
}

fn digit_text(d: u64) -> (r: &'static str)
    requires
        d < 10,
    ensures
        r@ == seq![digit(d as int)],
{
    proof {
        reveal_strlit("0");
        reveal_strlit("1");
        reveal_strlit("2");
        reveal_strlit("3");
        reveal_strlit("4");
        reveal_strlit("5");
        reveal_strlit("6");
        reveal_strlit("7");
        reveal_strlit("8");
        reveal_strlit("9");
    }
    match d {
        0 => "0",
        1 => "1",
        2 => "2",
        3 => "3",
        4 => "4",
        5 => "5",
        6 => "6",
        7 => "7",
        8 => "8",
        _ => "9",
    }
}

/// `n` in decimal digits.
pub fn decimal(n: u64) -> (r: String)
    ensures
        r@ == digits(n as nat),
    decreases n,
{
    if n < 10 {
        return digit_text(n).to_owned();
    }
    let mut text: String = decimal(n / 10);
    text.append(digit_text(n % 10));
    assert(text@ =~= digits(n as nat));
    text
}

/// The number that decimal digits stand for.
pub open spec fn number(text: Seq<char>) -> int
    decreases text.len(),
{
    if text.len() == 0 {
        0
    } else {
        10 * number(text.drop_last()) + (text.last() as int - 48)
    }
}

/// Decimal text stands for the number it was made of, so no two numbers share one.
pub proof fn lemma_digits_read_back(n: nat)
    ensures
        number(digits(n)) == n,
        digits(n).len() >= 1,
        forall|i: int| 0 <= i < digits(n).len() ==> '0' <= #[trigger] digits(n)[i] <= '9',
    decreases n,
{
    if n < 10 {
        assert(digits(n).drop_last() =~= Seq::<char>::empty());
        reveal_with_fuel(number, 2);
    } else {
        lemma_digits_read_back(n / 10);
        assert(digits(n).drop_last() =~= digits(n / 10));
    }
}

/// Decimal text grows by one digit for each factor of ten.
pub proof fn lemma_digits_grow(n: nat, d: nat)
    requires
        d < 10,
    ensures
        digits(d) == seq![('0' as int + d) as char],
        n > 0 ==> digits((10 * n + d) as nat) == digits(n) + seq![('0' as int + d) as char],
{
    if n > 0 {
        let m = (10 * n + d) as nat;
        assert(m / 10 == n && m % 10 == d);
        assert(digits(m) =~= digits(n) + seq![('0' as int + d) as char]);
    }
}

} // verus!
