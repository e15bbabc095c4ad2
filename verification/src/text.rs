//! Numbers in messages.

use vstd::arithmetic::div_mod::*;
use vstd::prelude::*;

verus! {

/// The character of a hexadecimal digit.
pub open spec fn digit_char(d: int) -> char {
    if d < 10 {
        (48 + d) as char
    } else {
        (87 + d) as char
    }
}

/// A number written in a base of at most sixteen, without leading zeros.
pub open spec fn numeral(n: nat, base: nat) -> Seq<char>
    decreases n,
{
    if base < 2 || n < base {
        seq![digit_char(n as int)]
    } else {
        proof {
            lemma_div_decreases(n as int, base as int);
        }
        numeral(n / base, base).push(digit_char((n % base) as int))
    }
}

/// A number written in base ten.
pub open spec fn decimal(n: nat) -> Seq<char> {
    numeral(n, 10)
}

fn digit(d: u64) -> (text: &'static str)
    requires
        d < 16,
    ensures
        text@ == seq![digit_char(d as int)],
{
    proof {
        reveal_strlit("0");
        reveal_strlit("1");
        reveal_strlit("2");
        reveal_strlit("3");
        reveal_strlit("4");
        reveal_strlit("5");
        reveal_strlit("6");
        reveal_strlit("7");
        reveal_strlit("8");
        reveal_strlit("9");
        reveal_strlit("a");
        reveal_strlit("b");
        reveal_strlit("c");
        reveal_strlit("d");
        reveal_strlit("e");
        reveal_strlit("f");
    }
    let text: &'static str = match d {
        0 => "0",
        1 => "1",
        2 => "2",
        3 => "3",
        4 => "4",
        5 => "5",
        6 => "6",
        7 => "7",
        8 => "8",
        9 => "9",
        10 => "a",
        11 => "b",
        12 => "c",
        13 => "d",
        14 => "e",
        _ => "f",
    };
    assert(text@ =~= seq![digit_char(d as int)]);
    text
}

/// Writes a number in a base of at most sixteen.
pub fn write_numeral(n: u64, base: u64) -> (text: String)
    requires
        2 <= base <= 16,
    ensures
        text@ == numeral(n as nat, base as nat),
    decreases n,
{
    if n < base {
        digit(n).to_owned()
    } else {
        proof {
            lemma_div_decreases(n as int, base as int);
        }
        let mut text: String = write_numeral(n / base, base);
        text.append(digit(n % base));
        assert(text@ =~= numeral((n / base) as nat, base as nat).push(
            digit_char((n % base) as int),
        ));
        text
    }
}

/// Writes a number in base ten.
pub fn write_decimal(n: u64) -> (text: String)
    ensures
        text@ == decimal(n as nat),
{
    write_numeral(n, 10)
}

/// Whether two texts are the same.
pub fn same_text(a: &str, b: &str) -> (same: bool)
    ensures
        same <==> a@ == b@,
{
    let n: usize = a.unicode_len();
    if n != b.unicode_len() {
        return false;
    }
    let mut i: usize = 0;
    while i < n
        invariant
            i <= n,
            n == a@.len(),
            n == b@.len(),
            forall|j: int| 0 <= j < i ==> a@[j] == b@[j],
        decreases n - i,
    {
        if a.get_char(i) != b.get_char(i) {
            return false;
        }
        i = i + 1;
    }
    assert(a@ =~= b@);
    true
}

/// What a number is written as in base ten is read as the number, all of it digits,
/// without a zero in front of others.
pub proof fn law_decimals_are_read_back(n: nat)
    ensures
        decimal(n).fold_left(0int, |read: int, c: char| 10 * read + (c as int - 48)) == n,
        forall|i: int| 0 <= i < decimal(n).len() ==> '0' <= #[trigger] decimal(n)[i] <= '9',
        decimal(n).len() >= 1,
        decimal(n).len() > 1 ==> decimal(n)[0] != '0',
    decreases n,
{
    let text = decimal(n);
    if n < 10 {
        assert(text.drop_last() =~= Seq::empty());
        assert(text.drop_last().fold_left(0int, |read: int, c: char| 10 * read + (c as int - 48))
            == 0);
        assert(text.last() == digit_char(n as int));
    } else {
        law_decimals_are_read_back(n / 10);
        assert(text.drop_last() =~= decimal(n / 10));
        if decimal(n / 10).len() == 1 {
            assert(n / 10 < 10) by {
                if n / 10 >= 10 {
                    law_decimals_are_read_back(n / 10 / 10);
                }
            }
        }
    }
}

} // verus!
