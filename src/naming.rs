use vstd::prelude::*;
use vstd::string::*;

use crate::compression::{suffix_of, CompressionFormat};

verus! {

/// The ten decimal digits, in order of value.
pub open spec fn digit_chars() -> Seq<char> {
    seq!['0', '1', '2', '3', '4', '5', '6', '7', '8', '9']
}

pub open spec fn is_digit(c: char) -> bool {
    '0' <= c && c <= '9'
}

/// The decimal form of a number, without leading zeros.
pub open spec fn decimal(n: nat) -> Seq<char>
    decreases n,
{
    if n < 10 {
        seq![digit_chars()[n as int]]
    } else {
        decimal(n / 10).push(digit_chars()[(n % 10) as int])
    }
}

/// The name of the file that holds chunk `sequence`:
/// `{base}.{sequence}{suffix}`.
pub open spec fn file_name_of(base: Seq<char>, sequence: nat, format: CompressionFormat) -> Seq<char> {
    base + seq!['.'] + decimal(sequence) + suffix_of(format)
}

/// Appends the decimal form of `n` to `s`.
fn push_decimal(s: &mut String, n: usize)
    ensures
        final(s)@ == old(s)@ + decimal(n as nat),
    decreases n,
{
    if n >= 10 {
        push_decimal(s, n / 10);
    }
    let d: usize = n % 10;
    proof {
        reveal_strlit("0123456789");
    }
    let digits = "0123456789";
    let one = digits.substring_char(d, d + 1);
    assert(one@ =~= seq![digit_chars()[d as int]]);
    s.append(one);
    assert(final(s)@ =~= old(s)@ + decimal(n as nat));
}

/// The decimal form of `n`, as a string.
pub fn decimal_string(n: usize) -> (r: String)
    ensures
        r@ == decimal(n as nat),
{
    let mut s = String::new();
    push_decimal(&mut s, n);
    assert(s@ =~= decimal(n as nat));
    s
}

/// The name of the file for chunk `sequence` under `base`, with the suffix
/// of the format appended when the chunk is compressed.
pub fn file_name(base: &str, sequence: usize, format: CompressionFormat) -> (r: String)
    ensures
        r@ == file_name_of(base@, sequence as nat, format),
{
    let mut name = String::from_str(base);
    name.append(".");
    push_decimal(&mut name, sequence);
    name.append(format.suffix());
    proof {
        reveal_strlit(".");
        assert(name@ =~= file_name_of(base@, sequence as nat, format));
    }
    name
}

} // verus!
