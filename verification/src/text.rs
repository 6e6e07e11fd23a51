//! Building text: decimal rendering of integers, padding, and the few
//! string operations of std that the rest of the compiler relies on.

use vstd::prelude::*;
use vstd::string::*;
use vstd::utf8::*;

verus! {

broadcast use vstd::utf8::group_utf8_lib;

/// The character of a decimal digit.
pub open spec fn digit_char(d: nat) -> char {
    ((d % 10) + 48) as char
}

/// Decimal digits of a natural number, most significant first, no leading zeros.
pub open spec fn nat_text(n: nat) -> Seq<char>
    decreases n,
{
    if n < 10 {
        seq![digit_char(n)]
    } else {
        nat_text(n / 10).push(digit_char(n % 10))
    }
}

/// Decimal rendering of an integer, with a leading `-` when negative.
pub open spec fn int_text(n: int) -> Seq<char> {
    if n < 0 {
        seq!['-'] + nat_text((-n) as nat)
    } else {
        nat_text(n as nat)
    }
}

/// `n` copies of the character `c`.
pub open spec fn repeat_char(c: char, n: nat) -> Seq<char> {
    Seq::new(n, |_i: int| c)
}

/// Left-pads `s` with spaces to at least `width` characters.
pub open spec fn pad_left(s: Seq<char>, width: nat) -> Seq<char> {
    if s.len() >= width {
        s
    } else {
        repeat_char(' ', (width - s.len()) as nat) + s
    }
}

/// The bytes of a text made of ASCII characters.
pub open spec fn ascii_bytes(s: Seq<char>) -> Seq<u8> {
    s.map_values(|c: char| c as u8)
}

/// Appends one character to a `String` (std's `String::push`).
#[verifier::external_body]
pub(crate) fn push_char(s: &mut String, c: char)
    ensures
        final(s)@ == old(s)@.push(c),
{
    s.push(c);
}

/// Borrows the bytes `a..b` of a string slice as a string slice (std's
/// range indexing of `str`, which requires both ends on character
/// boundaries).
#[verifier::external_body]
pub(crate) fn str_slice(s: &str, a: usize, b: usize) -> (r: &str)
    requires
        a <= b <= s.spec_bytes().len(),
        is_char_boundary(s.spec_bytes(), a as int),
        is_char_boundary(s.spec_bytes(), b as int),
    ensures
        r.spec_bytes() == s.spec_bytes().subrange(a as int, b as int),
{
    &s[a..b]
}

/// Turns valid UTF-8 bytes into a `String` (std's `String::from_utf8`,
/// which succeeds exactly on valid UTF-8).
#[verifier::external_body]
pub(crate) fn string_from_utf8(v: Vec<u8>) -> (r: String)
    requires
        valid_utf8(v@),
    ensures
        r@ == decode_utf8(v@),
{
    match String::from_utf8(v) {
        Ok(s) => s,
        Err(_) => String::new(),
    }
}

/// Length in bytes of a string slice (std's `str::len`); like every
/// allocation, a string slice holds at most `isize::MAX` bytes.
#[verifier::external_body]
pub(crate) fn str_len(s: &str) -> (r: usize)
    ensures
        r == s.spec_bytes().len(),
        r <= isize::MAX,
{
    s.len()
}

/// Compares two string slices (std's `==` on `str`).
#[verifier::external_body]
pub(crate) fn str_eq(a: &str, b: &str) -> (r: bool)
    ensures
        r == (a@ == b@),
{
    a == b
}

/// A string in Rust's debug notation: quoted, with escapes (what
/// `format!("{:?}", s)` gives).
pub uninterp spec fn debug_text(s: Seq<char>) -> Seq<char>;

/// Formats a string with std's `Debug` for `str`.
#[verifier::external_body]
pub(crate) fn debug_str(s: &str) -> (r: String)
    ensures
        r@ == debug_text(s@),
{
    format!("{:?}", s)
}


fn digit(d: u64) -> (c: char)
    requires
        d < 10,
    ensures
        c == digit_char(d as nat),
{
    let b: u8 = 48u8 + (d as u8);
    b as char
}

/// Appends the decimal digits of `n`.
pub(crate) fn push_nat(s: &mut String, n: u64)
    ensures
        final(s)@ == old(s)@ + nat_text(n as nat),
    decreases n,
{
    if n >= 10 {
        push_nat(s, n / 10);
    }
    let c = digit(n % 10);
    push_char(s, c);
    proof {
        if n >= 10 {
            assert(nat_text(n as nat) == nat_text((n / 10) as nat).push(digit_char((n % 10) as nat)));
        }
        assert(digit_char((n % 10) as nat) == digit_char(n as nat));
    }
}

/// Appends the decimal rendering of `n`.
pub(crate) fn push_int(s: &mut String, n: i64)
    ensures
        final(s)@ == old(s)@ + int_text(n as int),
{
    if n < 0 {
        push_char(s, '-');
        let m: u64 = if n == i64::MIN { 9223372036854775808u64 } else { (-n) as u64 };
        push_nat(s, m);
        assert(final(s)@ =~= old(s)@ + int_text(n as int));
    } else {
        push_nat(s, n as u64);
    }
}

/// Appends `n` copies of `c`.
pub(crate) fn push_repeat(s: &mut String, c: char, n: usize)
    ensures
        final(s)@ == old(s)@ + repeat_char(c, n as nat),
{
    let mut i: usize = 0;
    while i < n
        invariant
            i <= n,
            s@ == old(s)@ + repeat_char(c, i as nat),
        decreases n - i,
    {
        push_char(s, c);
        i = i + 1;
        assert(s@ =~= old(s)@ + repeat_char(c, i as nat));
    }
}

/// Appends the decimal rendering of `n`, right-aligned in `width` columns.
pub(crate) fn push_nat_padded(s: &mut String, n: u64, width: usize)
    ensures
        final(s)@ == old(s)@ + pad_left(nat_text(n as nat), width as nat),
{
    let mut digits = String::new();
    push_nat(&mut digits, n);
    assert(digits@ =~= nat_text(n as nat));
    let len = nat_len(n);
    if len < width {
        push_repeat(s, ' ', width - len);
    }
    s.append(digits.as_str());
    assert(final(s)@ =~= old(s)@ + pad_left(nat_text(n as nat), width as nat));
}

/// Number of decimal digits of `n`.
pub(crate) fn nat_len(n: u64) -> (r: usize)
    ensures
        r == nat_text(n as nat).len(),
        1 <= r <= 20,
    decreases n,
{
    proof {
        assert(pow10(20) == 100000000000000000000) by {
            reveal_with_fuel(pow10, 21);
        }
        lemma_nat_text_len(n as nat, 20);
    }
    if n < 10 {
        1
    } else {
        let r = nat_len(n / 10);
        r + 1
    }
}

/// `10` to the power `k`.
pub open spec fn pow10(k: nat) -> nat
    decreases k,
{
    if k == 0 {
        1
    } else {
        10 * pow10((k - 1) as nat)
    }
}

proof fn lemma_nat_text_len(n: nat, k: nat)
    requires
        k >= 1,
        n < pow10(k),
    ensures
        1 <= nat_text(n).len() <= k,
    decreases n,
{
    if n >= 10 {
        assert(k >= 2) by {
            if k == 1 {
                assert(pow10(1) == 10) by {
                    reveal_with_fuel(pow10, 2);
                }
            }
        }
        assert(n / 10 < pow10((k - 1) as nat));
        lemma_nat_text_len(n / 10, (k - 1) as nat);
    }
}

/// Appends the bytes of the decimal rendering of `n`.
pub(crate) fn push_int_bytes(v: &mut Vec<u8>, n: i64)
    ensures
        final(v)@ == old(v)@ + ascii_bytes(int_text(n as int)),
{
    let ghost start = v@;
    let mut s = String::new();
    push_int(&mut s, n);
    let st = s.as_str();
    let b = st.as_bytes();
    proof {
        lemma_int_text_ascii(n as int);
        is_ascii_chars_encode_utf8(s@);
    }
    let mut i: usize = 0;
    assert(b@ =~= ascii_bytes(s@));
    while i < b.len()
        invariant
            i <= b@.len(),
            b@ == st.spec_bytes(),
            st@ == s@,
            s@ == int_text(n as int),
            b@ == ascii_bytes(s@),
            v@ == start + b@.subrange(0, i as int),
        decreases b.len() - i,
    {
        v.push(b[i]);
        i = i + 1;
        assert(v@ =~= start + b@.subrange(0, i as int));
    }
    assert(b@.subrange(0, b@.len() as int) =~= b@);
}

/// Every character of a decimal rendering is ASCII.
pub proof fn lemma_int_text_ascii(n: int)
    ensures
        is_ascii_chars(int_text(n)),
{
    if n < 0 {
        lemma_nat_text_ascii((-n) as nat);
        assert(int_text(n) =~= seq!['-'] + nat_text((-n) as nat));
        assert forall|i: int| 0 <= i < int_text(n).len() implies '\0' <= #[trigger] int_text(n)[i] <= '\u{7f}' by {
            if i > 0 {
                assert(int_text(n)[i] == nat_text((-n) as nat)[i - 1]);
            }
        }
    } else {
        lemma_nat_text_ascii(n as nat);
    }
}

proof fn lemma_nat_text_ascii(n: nat)
    ensures
        is_ascii_chars(nat_text(n)),
    decreases n,
{
    if n >= 10 {
        lemma_nat_text_ascii(n / 10);
    }
}

} // verus!

verus! {

/// In valid UTF-8, the byte after a one-byte character at a character
/// boundary is again on a character boundary.
pub proof fn lemma_boundary_after_ascii(b: Seq<u8>, k: int)
    requires
        valid_utf8(b),
        0 <= k < b.len(),
        is_char_boundary(b, k),
        b[k] < 0x80,
    ensures
        is_char_boundary(b, k + 1),
    decreases b.len(),
{
    reveal_with_fuel(is_char_boundary, 2);
    reveal_with_fuel(valid_utf8, 2);
    let l = length_of_first_scalar(b);
    assert(valid_first_scalar(b));
    if k == 0 {
        let x = b[0];
        assert(is_leading_byte_width_1(x)) by (bit_vector)
            requires x < 0x80;
        assert(l == 1);
    } else {
        let p = pop_first_scalar(b);
        assert(l >= 1);
        assert(is_char_boundary(p, k - l));
        if k - l < 0 {
            assert(false);
        }
        assert(p[k - l] == b[k]);
        lemma_boundary_after_ascii(p, k - l);
    }
}

/// A byte below 0x80 inside a valid UTF-8 text is on a character boundary.
pub proof fn lemma_ascii_is_boundary(b: Seq<u8>, k: int)
    requires
        valid_utf8(b),
        0 <= k < b.len(),
        b[k] < 0x80,
    ensures
        is_char_boundary(b, k),
{
    let x = b[k];
    assert(!is_continuation_byte(x)) by (bit_vector)
        requires x < 0x80;
}

} // verus!
