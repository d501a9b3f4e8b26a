//! Message identifiers and their canonical text form.
//!
//! The storage layer assigns every record a 128-bit unique identifier.
//! Its text form is the usual hyphenated one: 32 hexadecimal digits in
//! five groups of 8, 4, 4, 4 and 12, lower case when produced here,
//! either case accepted when read.

use vstd::prelude::*;

verus! {

/// ASCII hyphen, the group separator of the identifier text.
pub const DASH: u8 = 0x2d;

/// A 128-bit record identifier, the library's image of the UUID
/// primary key that the storage layer generates.
#[derive(Clone, Copy, PartialEq, Eq, Structural, Debug)]
pub struct MessageId {
    pub value: u128,
}

/// An ASCII hexadecimal digit, either case.
pub open spec fn is_hex_digit_byte(b: u8) -> bool {
    (0x30 <= b && b <= 0x39) || (0x61 <= b && b <= 0x66) || (0x41 <= b && b <= 0x46)
}

/// An ASCII hexadecimal digit as this library prints them: lower case.
pub open spec fn is_canonical_hex_digit_byte(b: u8) -> bool {
    (0x30 <= b && b <= 0x39) || (0x61 <= b && b <= 0x66)
}

/// The numeric value of a hexadecimal digit byte.
pub open spec fn hex_digit_value(b: u8) -> int {
    if 0x30 <= b && b <= 0x39 {
        b - 0x30
    } else if 0x61 <= b && b <= 0x66 {
        b - 0x61 + 10
    } else {
        b - 0x41 + 10
    }
}

/// The lower-case digit byte of a value below 16.
pub open spec fn hex_digit_byte(v: int) -> u8 {
    if v < 10 {
        (0x30 + v) as u8
    } else {
        (0x57 + v) as u8
    }
}

/// The last `k` hexadecimal digits of `n`, most significant first.
pub open spec fn hex_digits(n: int, k: nat) -> Seq<u8>
    decreases k,
{
    if k == 0 {
        Seq::empty()
    } else {
        hex_digits(n / 16, (k - 1) as nat).push(hex_digit_byte(n % 16))
    }
}

/// The number written by a sequence of hexadecimal digit bytes.
pub open spec fn hex_value_of(s: Seq<u8>) -> int
    decreases s.len(),
{
    if s.len() == 0 {
        0
    } else {
        hex_value_of(s.drop_last()) * 16 + hex_digit_value(s.last())
    }
}

/// The k-th power of 16.
pub open spec fn pow16(k: nat) -> int
    decreases k,
{
    if k == 0 {
        1
    } else {
        16 * pow16((k - 1) as nat)
    }
}

/// The 32 digits of an identifier, most significant first.
pub open spec fn id_digits(id: MessageId) -> Seq<u8> {
    hex_digits(id.value as int, 32)
}

/// The canonical text of an identifier: the 32 digits in groups of
/// 8, 4, 4, 4 and 12, separated by hyphens.
pub open spec fn id_text(id: MessageId) -> Seq<u8> {
    id_digits(id).subrange(0, 8) + seq![DASH] + id_digits(id).subrange(8, 12) + seq![DASH]
        + id_digits(id).subrange(12, 16) + seq![DASH] + id_digits(id).subrange(16, 20)
        + seq![DASH] + id_digits(id).subrange(20, 32)
}

/// The 32 digit positions of a 36-byte identifier text, hyphens removed.
pub open spec fn text_digits(s: Seq<u8>) -> Seq<u8> {
    s.subrange(0, 8) + s.subrange(9, 13) + s.subrange(14, 18) + s.subrange(19, 23) + s.subrange(
        24,
        36,
    )
}

/// Whether `s` is a well-formed identifier text: 36 bytes, hyphens in
/// the four separator positions, hexadecimal digits everywhere else.
pub open spec fn is_id_text(s: Seq<u8>) -> bool {
    &&& s.len() == 36
    &&& s[8] == DASH
    &&& s[13] == DASH
    &&& s[18] == DASH
    &&& s[23] == DASH
    &&& forall|i: int| 0 <= i < 32 ==> is_hex_digit_byte(#[trigger] text_digits(s)[i])
}

/// The identifier a well-formed text denotes.
pub open spec fn id_of_text(s: Seq<u8>) -> MessageId {
    MessageId { value: hex_value_of(text_digits(s)) as u128 }
}

proof fn lemma_pow16_positive(k: nat)
    ensures
        0 < pow16(k),
    decreases k,
{
    if k > 0 {
        lemma_pow16_positive((k - 1) as nat);
    }
}

proof fn lemma_pow16_increases(a: nat, b: nat)
    requires
        a <= b,
    ensures
        0 < pow16(a) <= pow16(b),
    decreases b,
{
    lemma_pow16_positive(a);
    if a < b {
        lemma_pow16_increases(a, (b - 1) as nat);
        assert(pow16(b) == 16 * pow16((b - 1) as nat));
    }
}

proof fn lemma_hex_digits_ok(n: int, k: nat)
    requires
        0 <= n < pow16(k),
    ensures
        hex_digits(n, k).len() == k,
        forall|i: int| 0 <= i < k ==> is_canonical_hex_digit_byte(#[trigger] hex_digits(n, k)[i]),
        hex_value_of(hex_digits(n, k)) == n,
    decreases k,
{
    if k > 0 {
        let q: int = n / 16;
        let r: int = n % 16;
        let p: int = pow16((k - 1) as nat);
        lemma_pow16_increases(0, (k - 1) as nat);
        assert(0 <= q < p) by (nonlinear_arith)
            requires
                0 <= n < 16 * p,
                0 < p,
                q == n / 16,
        ;
        lemma_hex_digits_ok(q, (k - 1) as nat);
        let d: Seq<u8> = hex_digits(q, (k - 1) as nat);
        assert(hex_digits(n, k) == d.push(hex_digit_byte(r)));
        assert(d.push(hex_digit_byte(r)).drop_last() =~= d);
        assert(0 <= r < 16);
        assert(hex_digit_value(hex_digit_byte(r)) == r);
        assert(q * 16 + r == n) by (nonlinear_arith)
            requires
                q == n / 16,
                r == n % 16,
        ;
        assert(forall|i: int|
            0 <= i < k ==> is_canonical_hex_digit_byte(#[trigger] hex_digits(n, k)[i])) by {
            assert(forall|i: int| 0 <= i < k - 1 ==> hex_digits(n, k)[i] == d[i]);
            assert(hex_digits(n, k)[k - 1] == hex_digit_byte(r));
        }
    }
}

proof fn lemma_pow16_double(a: nat)
    ensures
        pow16(a + a) == pow16(a) * pow16(a),
    decreases a,
{
    if a > 0 {
        let b: nat = (a - 1) as nat;
        lemma_pow16_double(b);
        assert(pow16(a + a) == 16 * pow16((a + a - 1) as nat));
        assert(pow16((a + a - 1) as nat) == 16 * pow16((b + b) as nat));
        assert(16 * (16 * (pow16(b) * pow16(b))) == (16 * pow16(b)) * (16 * pow16(b)))
            by (nonlinear_arith);
    }
}

proof fn lemma_pow16_32()
    ensures
        pow16(32) == 0x1_0000_0000_0000_0000_0000_0000_0000_0000,
{
    assert(pow16(0) == 1);
    assert(pow16(1) == 16);
    assert(pow16(2) == 256);
    assert(pow16(4) == 0x1_0000) by {
        lemma_pow16_double(2);
    }
    assert(pow16(8) == 0x1_0000_0000) by {
        lemma_pow16_double(4);
    }
    assert(pow16(16) == 0x1_0000_0000_0000_0000) by {
        lemma_pow16_double(8);
    }
    assert(pow16(32) == 0x1_0000_0000_0000_0000_0000_0000_0000_0000) by {
        lemma_pow16_double(16);
    }
}

/// Every identifier's canonical text is well formed and denotes the
/// identifier it was printed from.
pub proof fn lemma_id_text_valid(id: MessageId)
    ensures
        is_id_text(id_text(id)),
        id_of_text(id_text(id)) == id,
        id_text(id).len() == 36,
{
    lemma_pow16_32();
    lemma_hex_digits_ok(id.value as int, 32);
    let d: Seq<u8> = id_digits(id);
    let t: Seq<u8> = id_text(id);
    assert(t.len() == 36);
    assert(text_digits(t) =~= d);
    assert(forall|i: int| 0 <= i < 32 ==> is_hex_digit_byte(#[trigger] text_digits(t)[i]));
    assert(t[8] == DASH);
    assert(t[13] == DASH);
    assert(t[18] == DASH);
    assert(t[23] == DASH);
}

/// Distinct identifiers print to distinct texts.
pub proof fn lemma_id_text_injective(a: MessageId, b: MessageId)
    ensures
        id_text(a) == id_text(b) ==> a == b,
{
    lemma_id_text_valid(a);
    lemma_id_text_valid(b);
}

fn push_hex_digits(out: &mut Vec<u8>, n: u128, k: usize)
    ensures
        final(out)@ == old(out)@ + hex_digits(n as int, k as nat),
    decreases k,
{
    if k == 0 {
        proof {
            assert(out@ =~= old(out)@ + hex_digits(n as int, 0));
        }
    } else {
        push_hex_digits(out, n / 16, k - 1);
        let d: u8 = (n % 16) as u8;
        let b: u8 = if d < 10 {
            0x30 + d
        } else {
            0x57 + d
        };
        out.push(b);
        proof {
            assert(b == hex_digit_byte(n as int % 16));
            assert(out@ =~= old(out)@ + hex_digits(n as int, k as nat));
        }
    }
}

fn push_slice_range(out: &mut Vec<u8>, src: &[u8], from: usize, to: usize)
    requires
        from <= to <= src@.len(),
    ensures
        final(out)@ == old(out)@ + src@.subrange(from as int, to as int),
{
    let mut i: usize = from;
    while i < to
        invariant
            from <= i <= to <= src@.len(),
            out@ == old(out)@ + src@.subrange(from as int, i as int),
        decreases to - i,
    {
        let b: u8 = src[i];
        out.push(b);
        proof {
            assert(old(out)@ + src@.subrange(from as int, i + 1) =~= (old(out)@ + src@.subrange(
                from as int,
                i as int,
            )).push(src@[i as int]));
        }
        i = i + 1;
    }
}

/// The canonical 36-byte text of an identifier.
pub fn format_id(id: &MessageId) -> (r: Vec<u8>)
    ensures
        r@ == id_text(*id),
{
    let mut digits: Vec<u8> = Vec::new();
    push_hex_digits(&mut digits, id.value, 32);
    proof {
        lemma_pow16_32();
        lemma_hex_digits_ok(id.value as int, 32);
        assert(digits@ =~= id_digits(*id));
    }
    let mut out: Vec<u8> = Vec::new();
    push_slice_range(&mut out, digits.as_slice(), 0, 8);
    out.push(DASH);
    push_slice_range(&mut out, digits.as_slice(), 8, 12);
    out.push(DASH);
    push_slice_range(&mut out, digits.as_slice(), 12, 16);
    out.push(DASH);
    push_slice_range(&mut out, digits.as_slice(), 16, 20);
    out.push(DASH);
    push_slice_range(&mut out, digits.as_slice(), 20, 32);
    proof {
        assert(out@ =~= id_text(*id));
    }
    out
}

/// Reads a hyphenated identifier text. Returns the identifier exactly
/// when the text is well formed, and nothing otherwise.
pub fn parse_id(s: &[u8]) -> (r: Option<MessageId>)
    ensures
        r is Some <==> is_id_text(s@),
        r matches Some(id) ==> id == id_of_text(s@),
{
    if s.len() != 36 {
        return None;
    }
    if !(s[8] == DASH && s[13] == DASH && s[18] == DASH && s[23] == DASH) {
        return None;
    }
    let mut digits: Vec<u8> = Vec::new();
    push_slice_range(&mut digits, s, 0, 8);
    push_slice_range(&mut digits, s, 9, 13);
    push_slice_range(&mut digits, s, 14, 18);
    push_slice_range(&mut digits, s, 19, 23);
    push_slice_range(&mut digits, s, 24, 36);
    proof {
        assert(digits@ =~= text_digits(s@));
    }
    let ghost d: Seq<u8> = digits@;
    let mut acc: u128 = 0;
    let mut i: usize = 0;
    while i < 32
        invariant
            0 <= i <= 32,
            digits@ == d,
            d == text_digits(s@),
            d.len() == 32,
            s@.len() == 36,
            s@[8] == DASH && s@[13] == DASH && s@[18] == DASH && s@[23] == DASH,
            forall|j: int| 0 <= j < i ==> is_hex_digit_byte(#[trigger] d[j]),
            acc as int == hex_value_of(d.subrange(0, i as int)),
            (acc as int) < pow16(i as nat),
        decreases 32 - i,
    {
        let b: u8 = digits[i];
        let v: u8 = if 0x30 <= b && b <= 0x39 {
            b - 0x30
        } else if 0x61 <= b && b <= 0x66 {
            b - 0x61 + 10
        } else if 0x41 <= b && b <= 0x46 {
            b - 0x41 + 10
        } else {
            return None;
        };
        proof {
            assert(is_hex_digit_byte(d[i as int]));
            assert(v as int == hex_digit_value(d[i as int]));
            lemma_pow16_increases((i + 1) as nat, 32);
            lemma_pow16_32();
            assert(d.subrange(0, i + 1).drop_last() =~= d.subrange(0, i as int));
            assert((acc as int) * 16 + (v as int) < pow16(i as nat) * 16) by (nonlinear_arith)
                requires
                    (acc as int) < pow16(i as nat),
                    v < 16,
            ;
            assert(pow16(i as nat) * 16 == pow16((i + 1) as nat));
        }
        acc = acc * 16 + (v as u128);
        i = i + 1;
    }
    proof {
        assert(d.subrange(0, 32) =~= d);
        assert(is_id_text(s@));
    }
    Some(MessageId { value: acc })
}

} // verus!
