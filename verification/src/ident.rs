//! Identifiers handed out by `generate`: the node's id, a dash, and the
//! node's message counter in decimal.

use vstd::prelude::*;
use vstd::string::*;

verus! {

/// The character that separates the node id from the counter.
pub open spec fn separator() -> char {
    '-'
}

/// Decimal digit character for a value below ten.
pub open spec fn digit_char(d: nat) -> char {
    if d == 0 {
        '0'
    } else if d == 1 {
        '1'
    } else if d == 2 {
        '2'
    } else if d == 3 {
        '3'
    } else if d == 4 {
        '4'
    } else if d == 5 {
        '5'
    } else if d == 6 {
        '6'
    } else if d == 7 {
        '7'
    } else if d == 8 {
        '8'
    } else {
        '9'
    }
}

/// Whether `c` is one of the ten decimal digits.
pub open spec fn is_digit(c: char) -> bool {
    exists|d: nat| d < 10 && c == #[trigger] digit_char(d)
}

/// The value of a decimal digit character (zero for any other character).
pub open spec fn digit_value(c: char) -> nat {
    if c == '1' {
        1
    } else if c == '2' {
        2
    } else if c == '3' {
        3
    } else if c == '4' {
        4
    } else if c == '5' {
        5
    } else if c == '6' {
        6
    } else if c == '7' {
        7
    } else if c == '8' {
        8
    } else if c == '9' {
        9
    } else {
        0
    }
}

/// The decimal numeral of `n`: no sign, no leading zero, `"0"` for zero.
pub open spec fn decimal(n: nat) -> Seq<char>
    decreases n,
{
    if n < 10 {
        seq![digit_char(n)]
    } else {
        decimal(n / 10).push(digit_char(n % 10))
    }
}

/// The number that a string of decimal digits denotes.
pub open spec fn decimal_value(s: Seq<char>) -> nat
    decreases s.len(),
{
    if s.len() == 0 {
        0
    } else {
        decimal_value(s.drop_last()) * 10 + digit_value(s.last())
    }
}

/// The identifier that a node named `node_id` generates at counter `counter`.
pub open spec fn generated_id(node_id: Seq<char>, counter: u64) -> Seq<char> {
    node_id.push(separator()) + decimal(counter as nat)
}

/// A numeral is never empty and holds digits only.
pub proof fn lemma_decimal_digits(n: nat)
    ensures
        decimal(n).len() >= 1,
        forall|i: int| 0 <= i < decimal(n).len() ==> is_digit(#[trigger] decimal(n)[i]),
    decreases n,
{
    if n < 10 {
        assert(is_digit(digit_char(n)));
    } else {
        lemma_decimal_digits(n / 10);
        assert(is_digit(digit_char(n % 10)));
    }
}

/// Reading a numeral back gives the number it was written from.
pub proof fn lemma_decimal_value(n: nat)
    ensures
        decimal_value(decimal(n)) == n,
    decreases n,
{
    if n < 10 {
        let s = decimal(n);
        assert(s.drop_last().len() == 0);
        assert(decimal_value(s.drop_last()) == 0);
        assert(s.last() == digit_char(n));
    } else {
        lemma_decimal_value(n / 10);
        let s = decimal(n);
        assert(s.drop_last() =~= decimal(n / 10));
        assert(s.last() == digit_char(n % 10));
    }
}

/// Two numbers with the same numeral are the same number.
pub proof fn lemma_decimal_injective(a: nat, b: nat)
    requires
        decimal(a) == decimal(b),
    ensures
        a == b,
{
    lemma_decimal_value(a);
    lemma_decimal_value(b);
}

/// A generated identifier determines both the node and the counter: two
/// identifiers are equal only if they come from the same node id and the
/// same counter value. Identifiers of different nodes never collide, and
/// one node never repeats an identifier as long as its counter moves on.
pub proof fn lemma_generated_id_injective(n1: Seq<char>, c1: u64, n2: Seq<char>, c2: u64)
    requires
        generated_id(n1, c1) == generated_id(n2, c2),
    ensures
        n1 == n2,
        c1 == c2,
{
    let g1 = generated_id(n1, c1);
    let g2 = generated_id(n2, c2);
    let d1 = decimal(c1 as nat);
    let d2 = decimal(c2 as nat);
    lemma_decimal_digits(c1 as nat);
    lemma_decimal_digits(c2 as nat);
    assert(g1.len() == n1.len() + 1 + d1.len());
    assert(g2.len() == n2.len() + 1 + d2.len());
    assert(g1[n1.len() as int] == separator());
    assert(g2[n2.len() as int] == separator());
    if n1.len() < n2.len() {
        let i = n2.len() as int;
        assert(g1[i] == d1[i - n1.len() - 1]);
        assert(is_digit(d1[i - n1.len() - 1]));
        assert(false);
    }
    if n2.len() < n1.len() {
        let i = n1.len() as int;
        assert(g2[i] == d2[i - n2.len() - 1]);
        assert(is_digit(d2[i - n2.len() - 1]));
        assert(false);
    }
    assert(n1 =~= n2) by {
        assert forall|i: int| 0 <= i < n1.len() implies n1[i] == n2[i] by {
            assert(g1[i] == n1[i]);
            assert(g2[i] == n2[i]);
        }
    }
    assert(d1 =~= d2) by {
        assert(d1.len() == d2.len());
        assert forall|i: int| 0 <= i < d1.len() implies d1[i] == d2[i] by {
            assert(g1[n1.len() + 1 + i] == d1[i]);
            assert(g2[n2.len() + 1 + i] == d2[i]);
        }
    }
    lemma_decimal_injective(c1 as nat, c2 as nat);
}

/// The one-character string of a digit.
fn digit_str(d: u64) -> (s: &'static str)
    requires
        d < 10,
    ensures
        s@ == seq![digit_char(d as nat)],
{
    proof {
        reveal_strlit("0");
        reveal_strlit("1");
        reveal_strlit("2");
        reveal_strlit("3");
        reveal_strlit("4");
        reveal_strlit("5");
        reveal_strlit("6");
        reveal_strlit("7");
        reveal_strlit("8");
        reveal_strlit("9");
    }
    if d == 0 {
        "0"
    } else if d == 1 {
        "1"
    } else if d == 2 {
        "2"
    } else if d == 3 {
        "3"
    } else if d == 4 {
        "4"
    } else if d == 5 {
        "5"
    } else if d == 6 {
        "6"
    } else if d == 7 {
        "7"
    } else if d == 8 {
        "8"
    } else {
        "9"
    }
}

/// Writes `n` in decimal.
pub fn decimal_string(n: u64) -> (s: String)
    ensures
        s@ == decimal(n as nat),
    decreases n,
{
    if n < 10 {
        String::from_str(digit_str(n))
    } else {
        decimal_string(n / 10).concat(digit_str(n % 10))
    }
}

/// Builds the identifier for `generate`: node id, separator, counter.
pub fn generate_id(node_id: &String, counter: u64) -> (id: String)
    ensures
        id@ == generated_id(node_id@, counter),
{
    proof {
        reveal_strlit("-");
    }
    let number = decimal_string(counter);
    node_id.clone().concat("-").concat(number.as_str())
}

} // verus!
