//! Plain-text rendering of numbers, shared by every message and name the
//! crate builds.

use vstd::prelude::*;

verus! {

/// The character that shows the decimal digit `d`.
pub open spec fn digit_char(d: nat) -> char {
    if d == 0 {
        '0'
    } else if d == 1 {
        '1'
    } else if d == 2 {
        '2'
    } else if d == 3 {
        '3'
    } else if d == 4 {
        '4'
    } else if d == 5 {
        '5'
    } else if d == 6 {
        '6'
    } else if d == 7 {
        '7'
    } else if d == 8 {
        '8'
    } else if d == 9 {
        '9'
    } else if d == 10 {
        'A'
    } else if d == 11 {
        'B'
    } else if d == 12 {
        'C'
    } else if d == 13 {
        'D'
    } else if d == 14 {
        'E'
    } else {
        'F'
    }
}

/// Decimal text of `n`, without leading zeros.
pub open spec fn decimal(n: nat) -> Seq<char>
    decreases n,
{
    if n < 10 {
        seq![digit_char(n)]
    } else {
        decimal(n / 10).push(digit_char(n % 10))
    }
}

/// The `width` lowest hexadecimal digits of `n`, upper case, zero padded.
pub open spec fn hex_digits(n: nat, width: nat) -> Seq<char>
    decreases width,
{
    if width == 0 {
        Seq::empty()
    } else {
        hex_digits(n / 16, (width - 1) as nat).push(digit_char(n % 16))
    }
}

fn digit_text(d: u64) -> (r: &'static str)
    requires
        d < 16,
    ensures
        r@ == seq![digit_char(d as nat)],
{
    proof {
        reveal_strlit("0");
        reveal_strlit("1");
        reveal_strlit("2");
        reveal_strlit("3");
        reveal_strlit("4");
        reveal_strlit("5");
        reveal_strlit("6");
        reveal_strlit("7");
        reveal_strlit("8");
        reveal_strlit("9");
        reveal_strlit("A");
        reveal_strlit("B");
        reveal_strlit("C");
        reveal_strlit("D");
        reveal_strlit("E");
        reveal_strlit("F");
    }
    let r = match d {
        0 => "0",
        1 => "1",
        2 => "2",
        3 => "3",
        4 => "4",
        5 => "5",
        6 => "6",
        7 => "7",
        8 => "8",
        9 => "9",
        10 => "A",
        11 => "B",
        12 => "C",
        13 => "D",
        14 => "E",
        _ => "F",
    };
    assert(r@ =~= seq![digit_char(d as nat)]);
    r
}

/// Append the decimal text of `n`.
pub fn append_decimal(out: &mut String, n: u64)
    ensures
        final(out)@ == old(out)@ + decimal(n as nat),
    decreases n,
{
    if n < 10 {
        out.append(digit_text(n));
    } else {
        append_decimal(out, n / 10);
        out.append(digit_text(n % 10));
        proof {
            assert(out@ =~= old(out)@ + decimal(n as nat));
        }
    }
}

/// Append the `width` lowest hexadecimal digits of `n`.
pub fn append_hex(out: &mut String, n: u64, width: u32)
    ensures
        final(out)@ == old(out)@ + hex_digits(n as nat, width as nat),
    decreases width,
{
    if width > 0 {
        append_hex(out, n / 16, width - 1);
        out.append(digit_text(n % 16));
    }
    proof {
        assert(out@ =~= old(out)@ + hex_digits(n as nat, width as nat));
    }
}

/// The text that `String::from_utf8_lossy` shows for a byte string.
pub uninterp spec fn lossy_text(bytes: Seq<u8>) -> Seq<char>;

/// Calls `String::from_utf8_lossy` and takes the text: the decoded text where the
/// bytes are UTF-8. For other bytes the text is left to the name `lossy_text`.
#[verifier::external_body]
pub(crate) fn from_utf8_lossy(bytes: &[u8]) -> (text: String)
    ensures
        text@ == lossy_text(bytes@),
        vstd::utf8::valid_utf8(bytes@) ==> text@ == vstd::utf8::decode_utf8(bytes@),
{
    String::from_utf8_lossy(bytes).into_owned()
}

/// Calls `std::str::from_utf8` and copies the text: the decoded text exactly where
/// the bytes are UTF-8.
#[verifier::external_body]
pub(crate) fn from_utf8(bytes: &[u8]) -> (text: Option<String>)
    ensures
        text is Some <==> vstd::utf8::valid_utf8(bytes@),
        text matches Some(text) ==> text@ == vstd::utf8::decode_utf8(bytes@),
{
    match std::str::from_utf8(bytes) {
        Ok(text) => Some(text.to_owned()),
        Err(_) => None,
    }
}

/// The bytes of a text that was put together are those of its parts.
pub proof fn lemma_encode_concat(front: Seq<char>, back: Seq<char>)
    ensures
        vstd::utf8::encode_utf8(front + back) == vstd::utf8::encode_utf8(front)
            + vstd::utf8::encode_utf8(back),
    decreases front.len(),
{
    if front.len() == 0 {
        assert(front + back =~= back);
        assert(vstd::utf8::encode_utf8(front) + vstd::utf8::encode_utf8(back)
            =~= vstd::utf8::encode_utf8(back));
    } else {
        lemma_encode_concat(front.drop_first(), back);
        assert((front + back).drop_first() =~= front.drop_first() + back);
        assert(vstd::utf8::encode_utf8(front + back) =~= vstd::utf8::encode_utf8(front)
            + vstd::utf8::encode_utf8(back));
    }
}

/// Texts with the same bytes are the same.
pub proof fn lemma_encode_injective(a: Seq<char>, b: Seq<char>)
    requires
        vstd::utf8::encode_utf8(a) == vstd::utf8::encode_utf8(b),
    ensures
        a == b,
{
    vstd::utf8::encode_utf8_decode_utf8(a);
    vstd::utf8::encode_utf8_decode_utf8(b);
}

/// A text begins with another exactly where its bytes begin with the other's bytes.
pub proof fn lemma_encode_prefix(front: Seq<char>, whole: Seq<char>)
    ensures
        front.is_prefix_of(whole) <==> vstd::utf8::encode_utf8(front).is_prefix_of(
            vstd::utf8::encode_utf8(whole),
        ),
    decreases front.len(),
{
    let a = vstd::utf8::encode_utf8(front);
    let b = vstd::utf8::encode_utf8(whole);
    if front.is_prefix_of(whole) {
        let back = whole.skip(front.len() as int);
        assert(whole =~= front + back);
        lemma_encode_concat(front, back);
        assert(a =~= b.subrange(0, a.len() as int));
    }
    if front.len() > 0 && a.is_prefix_of(b) {
        vstd::utf8::encode_utf8_first_scalar(front);
        assert(b.len() > 0);
        assert(whole.len() > 0);
        vstd::utf8::encode_utf8_first_scalar(whole);
        assert(forall|i: int| 0 <= i < a.len() ==> a[i] == #[trigger] b[i]) by {
            assert(a =~= b.subrange(0, a.len() as int));
        }
        assert(vstd::utf8::decode_first_scalar(a) == vstd::utf8::decode_first_scalar(b));
        vstd::utf8::char_u32_cast(front[0], front[0] as u32);
        vstd::utf8::char_u32_cast(whole[0], whole[0] as u32);
        let len = vstd::utf8::encode_scalar(front[0] as u32).len() as int;
        let a_rest = vstd::utf8::encode_utf8(front.drop_first());
        let b_rest = vstd::utf8::encode_utf8(whole.drop_first());
        assert(a_rest =~= a.subrange(len, a.len() as int));
        assert(b_rest =~= b.subrange(len, b.len() as int));
        assert(a_rest =~= b_rest.subrange(0, a_rest.len() as int));
        lemma_encode_prefix(front.drop_first(), whole.drop_first());
        assert(front =~= whole.subrange(0, front.len() as int)) by {
            let rest = whole.drop_first();
            assert(front.drop_first() =~= rest.subrange(0, front.drop_first().len() as int));
            assert forall|i: int| 0 <= i < front.len() implies front[i] == whole[i] by {
                if i > 0 {
                    assert(front.drop_first()[i - 1] == rest[i - 1]);
                }
            }
        }
    }
}

/// The number that a run of digits shows.
pub open spec fn shown_number(digits: Seq<char>, base: nat) -> nat
    decreases digits.len(),
{
    if digits.len() == 0 {
        0
    } else {
        shown_number(digits.drop_last(), base) * base + digit_value(digits.last())
    }
}

/// The number that one digit stands for.
pub open spec fn digit_value(digit: char) -> nat {
    if '0' <= digit && digit <= '9' {
        (digit as nat - '0' as nat) as nat
    } else {
        (digit as nat - 'A' as nat + 10) as nat
    }
}

/// Decimal text shows its number: it is made of the digits 0 to 9, read in base ten it
/// gives the number back, and it has no zero in front.
pub proof fn law_decimals_show_their_number(n: nat)
    ensures
        decimal(n).len() > 0,
        forall|i: int| 0 <= i < decimal(n).len() ==> '0' <= #[trigger] decimal(n)[i] && decimal(
            n,
        )[i] <= '9',
        shown_number(decimal(n), 10) == n,
        n > 0 ==> decimal(n)[0] != '0',
    decreases n,
{
    let digits = decimal(n);
    reveal_with_fuel(shown_number, 2);
    if n >= 10 {
        let front = decimal(n / 10);
        law_decimals_show_their_number(n / 10);
        assert(digits.drop_last() =~= front);
        assert(digits.last() == digit_char(n % 10));
        assert(digits[0] == front[0]);
        assert forall|i: int| 0 <= i < digits.len() implies '0' <= #[trigger] digits[i]
            && digits[i] <= '9' by {
            if i < front.len() {
                assert(digits[i] == front[i]);
            }
        }
    } else {
        assert(digits.drop_last() =~= Seq::<char>::empty());
        assert(digits.last() == digit_char(n));
    }
}

/// Hexadecimal text shows its number: it has the width that is asked for, is made of the
/// digits 0 to 9 and A to F, and read in base sixteen it gives the number back, as long as
/// that fits the width.
pub proof fn law_hexadecimals_show_their_number(n: nat, width: nat)
    ensures
        hex_digits(n, width).len() == width,
        forall|i: int|
            0 <= i < width ==> ('0' <= #[trigger] hex_digits(n, width)[i] && hex_digits(n, width)[i]
                <= '9') || ('A' <= hex_digits(n, width)[i] && hex_digits(n, width)[i] <= 'F'),
        n < vstd::arithmetic::power::pow(16, width) ==> shown_number(hex_digits(n, width), 16) == n,
    decreases width,
{
    reveal(vstd::arithmetic::power::pow);
    let digits = hex_digits(n, width);
    if width > 0 {
        let fewer = (width - 1) as nat;
        let front = hex_digits(n / 16, fewer);
        law_hexadecimals_show_their_number(n / 16, fewer);
        assert(digits.drop_last() =~= front);
        assert(digits.last() == digit_char(n % 16));
        assert forall|i: int| 0 <= i < width implies ('0' <= #[trigger] digits[i] && digits[i]
            <= '9') || ('A' <= digits[i] && digits[i] <= 'F') by {
            if i < front.len() {
                assert(digits[i] == front[i]);
            }
        }
    }
}

} // verus!
