//! Numbers in hexadecimal.

use vstd::prelude::*;
use vstd::string::StringExecFns;

verus! {

/// The digits in order.
pub open spec fn digits() -> Seq<char> {
    seq!['0', '1', '2', '3', '4', '5', '6', '7', '8', '9', 'a', 'b', 'c', 'd', 'e', 'f']
}

/// A number in hexadecimal, without leading zeros.
pub open spec fn hex(n: nat) -> Seq<char>
    decreases n,
{
    if n < 16 {
        seq![digits()[n as int]]
    } else {
        hex(n / 16).push(digits()[n as int % 16])
    }
}

// a digit as a string.
fn digit(d: u32) -> (r: &'static str)
    requires
        d < 16,
    ensures
        r@ == seq![digits()[d as int]],
{
    proof {
        reveal_strlit("0");
        reveal_strlit("1");
        reveal_strlit("2");
        reveal_strlit("3");
        reveal_strlit("4");
        reveal_strlit("5");
        reveal_strlit("6");
        reveal_strlit("7");
        reveal_strlit("8");
        reveal_strlit("9");
        reveal_strlit("a");
        reveal_strlit("b");
        reveal_strlit("c");
        reveal_strlit("d");
        reveal_strlit("e");
        reveal_strlit("f");
    }
    match d {
        0 => "0",
        1 => "1",
        2 => "2",
        3 => "3",
        4 => "4",
        5 => "5",
        6 => "6",
        7 => "7",
        8 => "8",
        9 => "9",
        10 => "a",
        11 => "b",
        12 => "c",
        13 => "d",
        14 => "e",
        _ => "f",
    }
}

/// A number in hexadecimal.
pub fn to_hex(n: u32) -> (r: String)
    ensures
        r@ == hex(n as nat),
    decreases n,
{
    if n < 16 {
        String::from_str(digit(n))
    } else {
        let r = to_hex(n / 16).concat(digit(n % 16));
        assert(r@ =~= hex(n as nat));
        r
    }
}

/// What a hexadecimal digit stands for.
pub open spec fn value_of(c: char) -> int {
    if '0' <= c && c <= '9' {
        c as int - '0' as int
    } else {
        c as int - 'a' as int + 10
    }
}

/// The text of a number is made of hexadecimal digits, which give the number, and has no leading
/// zeros.
pub proof fn law_digits_give_the_number(n: u32, r: String)
    requires
        call_ensures(to_hex, (n,), r),
    ensures
        0 < r@.len(),
        forall|i: int|
            0 <= i < r@.len() ==> {
                ||| '0' <= #[trigger] r@[i] && r@[i] <= '9'
                ||| 'a' <= r@[i] && r@[i] <= 'f'
            },
        r@.fold_left(0int, |a: int, c: char| 16 * a + value_of(c)) == n,
        r@[0] == '0' ==> n == 0 && r@.len() == 1,
{
    lemma_hex(n as nat);
}

// what the digits of a number are.
proof fn lemma_hex(n: nat)
    ensures
        0 < hex(n).len(),
        forall|i: int|
            0 <= i < hex(n).len() ==> {
                ||| '0' <= #[trigger] hex(n)[i] && hex(n)[i] <= '9'
                ||| 'a' <= hex(n)[i] && hex(n)[i] <= 'f'
            },
        hex(n).fold_left(0int, |a: int, c: char| 16 * a + value_of(c)) == n,
        hex(n)[0] == '0' ==> n == 0 && hex(n).len() == 1,
    decreases n,
{
    let f = |a: int, c: char| 16 * a + value_of(c);
    let s = hex(n);
    if n < 16 {
        assert(s.drop_last() =~= Seq::empty());
        reveal_with_fuel(Seq::fold_left, 2);
    } else {
        let init = hex(n / 16);
        lemma_hex(n / 16);
        assert(s.drop_last() =~= init);
        assert(s.last() == digits()[n as int % 16]);
        assert(value_of(s.last()) == n as int % 16);
        assert(s.fold_left(0int, f) == f(init.fold_left(0int, f), s.last()));
        assert forall|i: int| 0 <= i < s.len() implies {
            ||| '0' <= #[trigger] s[i] && s[i] <= '9'
            ||| 'a' <= s[i] && s[i] <= 'f'
        } by {
            if i < init.len() {
                assert(s[i] == init[i]);
            }
        }
        assert(s[0] == init[0]);
    }
}

} // verus!
