//! Byte-level encodings used to build canonical IDs and display strings.
//!
//! Every string this library builds is ASCII, so it is assembled as bytes
//! and turned into a `String` once at the end.

use vstd::prelude::*;

verus! {

/// The ASCII digit for a value below 10.
pub open spec fn digit(d: nat) -> u8 {
    (48 + d) as u8
}

/// Decimal digits of `n`, most significant first, without leading zeros.
pub open spec fn decimal(n: nat) -> Seq<u8>
    decreases n,
{
    if n < 10 {
        seq![digit(n)]
    } else {
        decimal(n / 10).push(digit(n % 10))
    }
}

/// Lower-case hexadecimal digit for a value below 16.
pub open spec fn hex_lower_digit(d: nat) -> u8 {
    if d < 10 {
        (48 + d) as u8
    } else {
        (87 + d) as u8
    }
}

/// Upper-case hexadecimal digit for a value below 16.
pub open spec fn hex_upper_digit(d: nat) -> u8 {
    if d < 10 {
        (48 + d) as u8
    } else {
        (55 + d) as u8
    }
}

/// Every byte in lower-case hex, two digits per byte.
pub open spec fn hex_lower(data: Seq<u8>) -> Seq<u8>
    decreases data.len(),
{
    if data.len() == 0 {
        seq![]
    } else {
        hex_lower(data.drop_last()) + seq![
            hex_lower_digit(data.last() as nat / 16),
            hex_lower_digit(data.last() as nat % 16),
        ]
    }
}

/// Whether a byte is kept as is by [`escape`]: an ASCII letter, digit or `_`.
pub open spec fn is_plain_byte(b: u8) -> bool {
    (48 <= b <= 57) || (65 <= b <= 90) || (97 <= b <= 122) || b == 95
}

/// The escaped form of one byte: the byte itself when it is plain, else `%`
/// and two upper-case hex digits.
pub open spec fn escape_byte(b: u8) -> Seq<u8> {
    if is_plain_byte(b) {
        seq![b]
    } else {
        seq![37u8, hex_upper_digit(b as nat / 16), hex_upper_digit(b as nat % 16)]
    }
}

/// Escapes every byte that is not an ASCII letter, digit or `_`.
pub open spec fn escape(s: Seq<u8>) -> Seq<u8>
    decreases s.len(),
{
    if s.len() == 0 {
        seq![]
    } else {
        escape(s.drop_last()) + escape_byte(s.last())
    }
}

/// Whether every byte is ASCII.
pub open spec fn is_ascii_bytes(s: Seq<u8>) -> bool {
    forall|i: int| 0 <= i < s.len() ==> s[i] < 128
}

/// The characters of an ASCII byte sequence.
pub open spec fn ascii_chars(s: Seq<u8>) -> Seq<char> {
    s.map_values(|b: u8| b as char)
}

/// Decimal digits are ASCII, and there is at least one.
pub proof fn lemma_decimal_ascii(n: nat)
    ensures
        is_ascii_bytes(decimal(n)),
        decimal(n).len() >= 1,
    decreases n,
{
    if n >= 10 {
        lemma_decimal_ascii(n / 10);
    }
}

/// Escaped bytes are ASCII.
pub proof fn lemma_escape_ascii(s: Seq<u8>)
    ensures
        is_ascii_bytes(escape(s)),
    decreases s.len(),
{
    if s.len() > 0 {
        lemma_escape_ascii(s.drop_last());
    }
}

/// Hex digits are ASCII, two per byte.
pub proof fn lemma_hex_lower_ascii(s: Seq<u8>)
    ensures
        is_ascii_bytes(hex_lower(s)),
        hex_lower(s).len() == 2 * s.len(),
    decreases s.len(),
{
    if s.len() > 0 {
        lemma_hex_lower_ascii(s.drop_last());
    }
}

/// Appends the decimal digits of `n` to `out`.
pub fn push_decimal(out: &mut Vec<u8>, n: u64)
    ensures
        final(out)@ == old(out)@ + decimal(n as nat),
    decreases n,
{
    if n >= 10 {
        push_decimal(out, n / 10);
    }
    let d: u8 = (n % 10) as u8;
    out.push(48 + d);
    proof {
        assert(old(out)@ + decimal(n as nat) =~= final(out)@) by {
            if n >= 10 {
                assert(decimal(n as nat) == decimal((n / 10) as nat).push(digit((n % 10) as nat)));
            }
        }
    }
}

/// Appends the decimal digits of a 128-bit `n` to `out`.
pub fn push_decimal_wide(out: &mut Vec<u8>, n: u128)
    ensures
        final(out)@ == old(out)@ + decimal(n as nat),
    decreases n,
{
    if n >= 10 {
        push_decimal_wide(out, n / 10);
    }
    let d: u8 = (n % 10) as u8;
    out.push(48 + d);
    proof {
        assert(old(out)@ + decimal(n as nat) =~= final(out)@) by {
            if n >= 10 {
                assert(decimal(n as nat) == decimal((n / 10) as nat).push(digit((n % 10) as nat)));
            }
        }
    }
}

/// Decimal text of an integer: `-` before the digits of a negative one.
pub open spec fn signed_decimal(v: int) -> Seq<u8> {
    if v < 0 {
        seq![45u8] + decimal((-v) as nat)
    } else {
        decimal(v as nat)
    }
}

/// Appends the decimal text of a signed `v` to `out`.
pub fn push_signed_decimal(out: &mut Vec<u8>, v: i128)
    ensures
        final(out)@ == old(out)@ + signed_decimal(v as int),
{
    if v < 0 {
        out.push(45);
        let m: u128 = ((-(v + 1)) as u128) + 1;
        push_decimal_wide(out, m);
        assert(final(out)@ =~= old(out)@ + signed_decimal(v as int));
    } else {
        push_decimal_wide(out, v as u128);
    }
}

/// The first byte of decimal digits is a digit.
pub proof fn lemma_decimal_first_digit(n: nat)
    ensures
        48 <= decimal(n)[0] <= 57,
    decreases n,
{
    if n >= 10 {
        lemma_decimal_first_digit(n / 10);
        lemma_decimal_ascii(n / 10);
        assert(decimal(n)[0] == decimal(n / 10)[0]);
    }
}

/// Signed decimal text is ASCII.
pub proof fn lemma_signed_decimal_ascii(v: int)
    ensures
        is_ascii_bytes(signed_decimal(v)),
{
    if v < 0 {
        lemma_decimal_ascii((-v) as nat);
    } else {
        lemma_decimal_ascii(v as nat);
    }
}

/// Signed decimal text identifies the integer.
pub proof fn lemma_signed_decimal_injective(a: int, b: int)
    requires
        signed_decimal(a) == signed_decimal(b),
    ensures
        a == b,
{
    if a < 0 && b < 0 {
        assert(decimal((-a) as nat) =~= signed_decimal(a).drop_first());
        assert(decimal((-b) as nat) =~= signed_decimal(b).drop_first());
        lemma_decimal_injective((-a) as nat, (-b) as nat);
    } else if a < 0 {
        lemma_decimal_first_digit(b as nat);
        assert(signed_decimal(a)[0] == 45u8);
    } else if b < 0 {
        lemma_decimal_first_digit(a as nat);
        assert(signed_decimal(b)[0] == 45u8);
    } else {
        lemma_decimal_injective(a as nat, b as nat);
    }
}

/// Appends all bytes of `src` to `out`.
pub fn push_all(out: &mut Vec<u8>, src: &[u8])
    ensures
        final(out)@ == old(out)@ + src@,
{
    let mut i: usize = 0;
    while i < src.len()
        invariant
            0 <= i <= src.len(),
            out@ == old(out)@ + src@.subrange(0, i as int),
        decreases src.len() - i,
    {
        out.push(src[i]);
        i = i + 1;
        assert(out@ =~= old(out)@ + src@.subrange(0, i as int));
    }
    assert(src@.subrange(0, src.len() as int) =~= src@);
}

fn hex_lower_digit_exec(d: u8) -> (r: u8)
    requires
        d < 16,
    ensures
        r == hex_lower_digit(d as nat),
{
    if d < 10 {
        48 + d
    } else {
        87 + d
    }
}

fn hex_upper_digit_exec(d: u8) -> (r: u8)
    requires
        d < 16,
    ensures
        r == hex_upper_digit(d as nat),
{
    if d < 10 {
        48 + d
    } else {
        55 + d
    }
}

/// Appends every byte of `data` in lower-case hex to `out`.
pub fn push_hex_lower(out: &mut Vec<u8>, data: &[u8])
    ensures
        final(out)@ == old(out)@ + hex_lower(data@),
{
    let mut i: usize = 0;
    while i < data.len()
        invariant
            0 <= i <= data.len(),
            out@ == old(out)@ + hex_lower(data@.subrange(0, i as int)),
        decreases data.len() - i,
    {
        let b = data[i];
        out.push(hex_lower_digit_exec(b / 16));
        out.push(hex_lower_digit_exec(b % 16));
        proof {
            let prefix = data@.subrange(0, i + 1);
            assert(prefix.drop_last() =~= data@.subrange(0, i as int));
            assert(prefix.last() == b);
        }
        i = i + 1;
        assert(out@ =~= old(out)@ + hex_lower(data@.subrange(0, i as int)));
    }
    assert(data@.subrange(0, data.len() as int) =~= data@);
}

/// Whether `b` is an ASCII letter, digit or `_`.
pub fn is_plain(b: u8) -> (r: bool)
    ensures
        r == is_plain_byte(b),
{
    (48 <= b && b <= 57) || (65 <= b && b <= 90) || (97 <= b && b <= 122) || b == 95
}

/// Appends the escaped form of `s` to `out`: ASCII letters, digits and `_`
/// are kept, every other byte becomes `%` and two upper-case hex digits.
pub fn push_escaped(out: &mut Vec<u8>, s: &[u8])
    ensures
        final(out)@ == old(out)@ + escape(s@),
{
    let mut i: usize = 0;
    while i < s.len()
        invariant
            0 <= i <= s.len(),
            out@ == old(out)@ + escape(s@.subrange(0, i as int)),
        decreases s.len() - i,
    {
        let b = s[i];
        if is_plain(b) {
            out.push(b);
        } else {
            out.push(37);
            out.push(hex_upper_digit_exec(b / 16));
            out.push(hex_upper_digit_exec(b % 16));
        }
        proof {
            let prefix = s@.subrange(0, i + 1);
            assert(prefix.drop_last() =~= s@.subrange(0, i as int));
            assert(prefix.last() == b);
        }
        i = i + 1;
        assert(out@ =~= old(out)@ + escape(s@.subrange(0, i as int)));
    }
    assert(s@.subrange(0, s.len() as int) =~= s@);
}

/// Turns ASCII bytes into a `String` with the same characters, by
/// `String::from_utf8`.
///
/// Trusted: ASCII bytes are valid UTF-8, so `from_utf8` returns them as a
/// string whose characters are those bytes, one for one.
#[verifier::external_body]
pub(crate) fn ascii_to_string(bytes: Vec<u8>) -> (s: String)
    requires
        is_ascii_bytes(bytes@),
    ensures
        s@ == ascii_chars(bytes@),
{
    match String::from_utf8(bytes) {
        Ok(s) => s,
        Err(_) => String::new(),
    }
}

/// The decimal text of `n`.
pub open spec fn dec_text(n: nat) -> Seq<char> {
    ascii_chars(decimal(n))
}

/// Appends the decimal text of `n` to a string.
pub fn append_decimal(out: &mut String, n: u64)
    ensures
        final(out)@ == old(out)@ + dec_text(n as nat),
{
    let mut bytes: Vec<u8> = Vec::new();
    push_decimal(&mut bytes, n);
    proof {
        lemma_decimal_ascii(n as nat);
        assert(bytes@ =~= decimal(n as nat));
    }
    let text = ascii_to_string(bytes);
    out.append(text.as_str());
}

/// `10` to the power `k`.
pub open spec fn pow10(k: nat) -> nat
    decreases k,
{
    if k == 0 {
        1
    } else {
        10 * pow10((k - 1) as nat)
    }
}

pub proof fn lemma_decimal_len(n: nat, k: nat)
    requires
        n < pow10(k),
        k >= 1,
    ensures
        decimal(n).len() <= k,
    decreases k,
{
    if n >= 10 {
        assert(k >= 2) by {
            if k == 1 {
                assert(pow10(1) == 10 * pow10(0));
            }
        }
        assert(n / 10 < pow10((k - 1) as nat)) by (nonlinear_arith)
            requires
                n < pow10(k),
                pow10(k) == 10 * pow10((k - 1) as nat),
        ;
        lemma_decimal_len(n / 10, (k - 1) as nat);
    }
}

pub proof fn lemma_decimal_plain(n: nat)
    ensures
        escape(decimal(n)) == decimal(n),
    decreases n,
{
    if n < 10 {
        let s = decimal(n);
        assert(s.drop_last() =~= seq![]);
        assert(escape(s) =~= escape(s.drop_last()) + escape_byte(s.last()));
        assert(escape(s) =~= s);
    } else {
        lemma_decimal_plain(n / 10);
        let s = decimal(n);
        assert(s.drop_last() =~= decimal(n / 10));
        assert(escape(s) =~= s);
    }
}

/// Decimal digits identify the number.
pub proof fn lemma_decimal_injective(a: nat, b: nat)
    requires
        decimal(a) == decimal(b),
    ensures
        a == b,
    decreases a,
{
    lemma_decimal_ascii(a);
    lemma_decimal_ascii(b);
    let sa = decimal(a);
    let sb = decimal(b);
    if a < 10 && b >= 10 {
        lemma_decimal_ascii(b / 10);
        assert(sb.len() >= 2);
    } else if a >= 10 && b < 10 {
        lemma_decimal_ascii(a / 10);
        assert(sa.len() >= 2);
    } else if a >= 10 && b >= 10 {
        assert(sa.drop_last() =~= decimal(a / 10));
        assert(sb.drop_last() =~= decimal(b / 10));
        assert(sa.last() == digit(a % 10));
        assert(sb.last() == digit(b % 10));
        lemma_decimal_injective(a / 10, b / 10);
    } else {
        assert(sa[0] == digit(a));
        assert(sb[0] == digit(b));
    }
}

/// A `u64` has at most 20 decimal digits.
pub proof fn lemma_u64_decimal_len(n: u64)
    ensures
        decimal(n as nat).len() <= 20,
{
    assert(pow10(20) == 100000000000000000000nat) by {
        reveal_with_fuel(pow10, 21);
    }
    lemma_decimal_len(n as nat, 20);
}

/// Escaping works byte by byte from the front too.
pub proof fn lemma_escape_front(s: Seq<u8>)
    requires
        s.len() > 0,
    ensures
        escape(s) == escape_byte(s[0]) + escape(s.drop_first()),
    decreases s.len(),
{
    if s.len() == 1 {
        assert(s.drop_last() =~= seq![]);
        assert(s.drop_first() =~= seq![]);
        assert(escape(s) =~= escape_byte(s[0]) + escape(s.drop_first()));
    } else {
        let dl = s.drop_last();
        lemma_escape_front(dl);
        assert(dl.drop_first() =~= s.drop_first().drop_last());
        assert(s.drop_first().last() == s.last());
        assert(dl[0] == s[0]);
        assert(escape(s) =~= escape_byte(s[0]) + escape(s.drop_first()));
    }
}

/// Escaped bytes never hold `#`.
pub proof fn lemma_escape_no_hash(s: Seq<u8>)
    ensures
        forall|i: int| 0 <= i < escape(s).len() ==> escape(s)[i] != 35,
    decreases s.len(),
{
    if s.len() > 0 {
        lemma_escape_no_hash(s.drop_last());
        let e = escape(s.drop_last());
        let b = escape_byte(s.last());
        assert forall|i: int| 0 <= i < escape(s).len() implies escape(s)[i] != 35 by {
            if i >= e.len() {
                assert(escape(s)[i] == b[i - e.len()]);
            } else {
                assert(escape(s)[i] == e[i]);
            }
        }
    }
}

proof fn lemma_escape_byte_injective(a: u8, b: u8)
    requires
        escape_byte(a).len() == escape_byte(b).len(),
        escape_byte(a) == escape_byte(b),
    ensures
        a == b,
{
    if !is_plain_byte(a) && !is_plain_byte(b) {
        let ea = escape_byte(a);
        assert(ea[1] == hex_upper_digit(a as nat / 16));
        assert(ea[2] == hex_upper_digit(a as nat % 16));
        assert(hex_upper_digit(a as nat / 16) == hex_upper_digit(b as nat / 16));
        assert(hex_upper_digit(a as nat % 16) == hex_upper_digit(b as nat % 16));
        assert(a as nat / 16 == b as nat / 16);
        assert(a as nat % 16 == b as nat % 16);
    } else if is_plain_byte(a) && is_plain_byte(b) {
        assert(escape_byte(a)[0] == a);
    } else if is_plain_byte(a) {
        assert(escape_byte(a).len() == 1);
    } else {
        assert(escape_byte(b).len() == 1);
    }
}

/// An escaped byte followed by more bytes gives back the byte and the rest.
proof fn lemma_escape_byte_prefix(a: u8, b: u8, rest_a: Seq<u8>, rest_b: Seq<u8>)
    requires
        escape_byte(a) + rest_a == escape_byte(b) + rest_b,
    ensures
        a == b,
        rest_a == rest_b,
{
    let ea = escape_byte(a);
    let eb = escape_byte(b);
    let e = ea + rest_a;
    assert(e[0] == ea[0]);
    assert((eb + rest_b)[0] == eb[0]);
    // A plain byte stands for itself and is never `%`, which starts an
    // escape, so both bytes are written the same way.
    assert(ea.len() == eb.len());
    assert(e.subrange(0, ea.len() as int) =~= ea);
    assert((eb + rest_b).subrange(0, eb.len() as int) =~= eb);
    lemma_escape_byte_injective(a, b);
    assert(e.subrange(ea.len() as int, e.len() as int) =~= rest_a);
    assert((eb + rest_b).subrange(eb.len() as int, e.len() as int) =~= rest_b);
}

/// Escaping is injective: the escaped form gives the bytes back.
pub proof fn lemma_escape_injective(s: Seq<u8>, t: Seq<u8>)
    requires
        escape(s) == escape(t),
    ensures
        s == t,
    decreases s.len(),
{
    if s.len() == 0 || t.len() == 0 {
        if s.len() > 0 {
            lemma_escape_front(s);
        }
        if t.len() > 0 {
            lemma_escape_front(t);
        }
        assert(s =~= t);
    } else {
        lemma_escape_front(s);
        lemma_escape_front(t);
        lemma_escape_byte_prefix(s[0], t[0], escape(s.drop_first()), escape(t.drop_first()));
        lemma_escape_injective(s.drop_first(), t.drop_first());
        assert(s =~= seq![s[0]] + s.drop_first());
        assert(t =~= seq![t[0]] + t.drop_first());
    }
}

} // verus!
