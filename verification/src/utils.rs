//! Small helpers: binary notation and a checked condition.

use vstd::prelude::*;
use vstd::string::*;

verus! {

/// The digit of a bit.
pub open spec fn bit_char(b: nat) -> char {
    if b == 0 {
        '0'
    } else {
        '1'
    }
}

/// The binary notation of a number, the highest digit first, without
/// leading zeros; `"0"` for 0.
pub open spec fn binary_digits(val: nat) -> Seq<char>
    decreases val,
{
    if val < 2 {
        seq![bit_char(val)]
    } else {
        binary_digits(val / 2).push(bit_char(val % 2))
    }
}

/// The text filled up on the left with `'0'` to the given width; a text that
/// is as wide or wider is left as it is.
pub open spec fn left_pad(s: Seq<char>, width: nat) -> Seq<char> {
    Seq::new(
        if width > s.len() {
            (width - s.len()) as nat
        } else {
            0nat
        },
        |i: int| '0',
    ) + s
}

/// The number in binary, filled up on the left with zeros to at least
/// `width` digits.
pub fn to_binary_string(val: u64, width: usize) -> (s: String)
    ensures
        s@ == left_pad(binary_digits(val as nat), width as nat),
{
    // the digits, the lowest first
    let mut low_first: Vec<bool> = Vec::new();
    let mut v: u64 = val;
    let ghost digit = |b: bool| if b { '1' } else { '0' };
    assert(binary_digits(v as nat) + low_first@.map_values(digit).reverse() =~= binary_digits(
        val as nat,
    ));
    while v >= 2
        invariant
            digit == |b: bool| if b { '1' } else { '0' },
            binary_digits(val as nat) == binary_digits(v as nat) + low_first@.map_values(
                digit,
            ).reverse(),
        decreases v,
    {
        let ghost before = low_first@.map_values(digit);
        low_first.push(v % 2 == 1);
        assert(binary_digits((v / 2) as nat) + low_first@.map_values(digit).reverse()
            =~= binary_digits(v as nat) + before.reverse());
        v = v / 2;
    }
    let ghost before = low_first@.map_values(digit);
    low_first.push(v == 1);
    let ghost digits = low_first@.map_values(digit).reverse();
    assert(digits =~= binary_digits(v as nat) + before.reverse());
    let n: usize = low_first.len();
    let mut out: String = String::new();
    let fill: usize = if width > n { width - n } else { 0 };
    proof {
        reveal_strlit("0");
        reveal_strlit("1");
    }
    let mut i: usize = 0;
    assert(out@ =~= Seq::new(0nat, |k: int| '0'));
    while i < fill
        invariant
            i <= fill,
            "0"@ == seq!['0'],
            out@ == Seq::new(i as nat, |k: int| '0'),
        decreases fill - i,
    {
        out.append("0");
        i = i + 1;
        assert(out@ =~= Seq::new(i as nat, |k: int| '0'));
    }
    let mut j: usize = 0;
    assert(digits.take(0) =~= Seq::<char>::empty());
    while j < n
        invariant
            j <= n,
            n == low_first.len(),
            "0"@ == seq!['0'],
            "1"@ == seq!['1'],
            digit == |b: bool| if b { '1' } else { '0' },
            digits == low_first@.map_values(digit).reverse(),
            out@ == Seq::new(fill as nat, |k: int| '0') + digits.take(j as int),
        decreases n - j,
    {
        if low_first[n - 1 - j] {
            out.append("1");
        } else {
            out.append("0");
        }
        j = j + 1;
        assert(out@ =~= Seq::new(fill as nat, |k: int| '0') + digits.take(j as int));
    }
    assert(digits.take(n as int) =~= digits);
    out
}

/// Accepts a condition that holds; the message says what was expected.
pub fn check(condition: bool, msg: &str)
    requires
        condition,
{
}

} // verus!
