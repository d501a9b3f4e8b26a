//! The JSON body of a served record.
//!
//! A record travels as `{"id":"<identifier text>","message":"<payload>"}`.
//! The payload is escaped as JSON strings are: quote and backslash get a
//! backslash, control bytes become `\u00` and two hexadecimal digits,
//! every other byte stands as itself. The rendering is injective: the
//! body determines the record.

use crate::id::hex_digit_byte;
use crate::id::id_text;
use crate::id::lemma_id_text_injective;
use crate::id::lemma_id_text_valid;
use crate::id::MessageId;
use crate::store::SecretMessage;
use vstd::prelude::*;

verus! {

/// ASCII double quote.
pub const QUOTE: u8 = 0x22;

/// ASCII backslash.
pub const BACKSLASH: u8 = 0x5c;

/// The escape of one payload byte.
pub open spec fn escaped_byte(b: u8) -> Seq<u8> {
    if b == QUOTE {
        seq![BACKSLASH, QUOTE]
    } else if b == BACKSLASH {
        seq![BACKSLASH, BACKSLASH]
    } else if b < 0x20 {
        seq![
            BACKSLASH,
            0x75,
            0x30,
            0x30,
            hex_digit_byte(b as int / 16),
            hex_digit_byte(b as int % 16),
        ]
    } else {
        seq![b]
    }
}

/// The escape of a whole payload.
pub open spec fn escape(s: Seq<u8>) -> Seq<u8>
    decreases s.len(),
{
    if s.len() == 0 {
        Seq::empty()
    } else {
        escaped_byte(s[0]) + escape(s.skip(1))
    }
}

/// The opening of the body, through the quote before the identifier:
/// `{"id":"`.
pub open spec fn json_prefix() -> Seq<u8> {
    seq![0x7b, QUOTE, 0x69, 0x64, QUOTE, 0x3a, QUOTE]
}

/// The middle of the body, between identifier and payload:
/// `","message":"`.
pub open spec fn json_mid() -> Seq<u8> {
    seq![QUOTE, 0x2c, QUOTE, 0x6d, 0x65, 0x73, 0x73, 0x61, 0x67, 0x65, QUOTE, 0x3a, QUOTE]
}

/// The close of the body: `"}`.
pub open spec fn json_suffix() -> Seq<u8> {
    seq![QUOTE, 0x7d]
}

/// The JSON body of a record.
pub open spec fn record_json(id: MessageId, message: Seq<u8>) -> Seq<u8> {
    json_prefix() + id_text(id) + json_mid() + escape(message) + json_suffix()
}

proof fn lemma_escape_push(s: Seq<u8>, b: u8)
    ensures
        escape(s.push(b)) == escape(s) + escaped_byte(b),
    decreases s.len(),
{
    if s.len() == 0 {
        assert(s.push(b)[0] == b);
        assert(s.push(b).skip(1) =~= Seq::<u8>::empty());
        assert(escape(Seq::<u8>::empty()) == Seq::<u8>::empty());
        assert(escape(s.push(b)) == escaped_byte(b) + Seq::<u8>::empty());
        assert(escaped_byte(b) + Seq::<u8>::empty() =~= escape(s) + escaped_byte(b));
    } else {
        assert(s.push(b).skip(1) =~= s.skip(1).push(b));
        lemma_escape_push(s.skip(1), b);
        assert(s.push(b)[0] == s[0]);
        assert(escape(s.push(b)) == escaped_byte(s[0]) + (escape(s.skip(1)) + escaped_byte(b)));
        assert(escaped_byte(s[0]) + (escape(s.skip(1)) + escaped_byte(b)) =~= escape(s)
            + escaped_byte(b));
    }
}

/// Appends the escape of `s` to `out`.
fn escape_into(out: &mut Vec<u8>, s: &[u8])
    ensures
        final(out)@ == old(out)@ + escape(s@),
{
    let n: usize = s.len();
    let mut i: usize = 0;
    while i < n
        invariant
            0 <= i <= n,
            n == s@.len(),
            out@ == old(out)@ + escape(s@.subrange(0, i as int)),
        decreases n - i,
    {
        let b: u8 = s[i];
        if b == QUOTE {
            out.push(BACKSLASH);
            out.push(QUOTE);
        } else if b == BACKSLASH {
            out.push(BACKSLASH);
            out.push(BACKSLASH);
        } else if b < 0x20 {
            out.push(BACKSLASH);
            out.push(0x75);
            out.push(0x30);
            out.push(0x30);
            let hi: u8 = b / 16;
            let lo: u8 = b % 16;
            out.push(0x30 + hi);
            let lo_byte: u8 = if lo < 10 {
                0x30 + lo
            } else {
                0x57 + lo
            };
            out.push(lo_byte);
            proof {
                assert(hex_digit_byte(b as int / 16) == 0x30 + hi);
                assert(hex_digit_byte(b as int % 16) == lo_byte);
            }
        } else {
            out.push(b);
        }
        proof {
            assert(s@.subrange(0, i + 1) =~= s@.subrange(0, i as int).push(s@[i as int]));
            lemma_escape_push(s@.subrange(0, i as int), s@[i as int]);
            assert(out@ =~= old(out)@ + escape(s@.subrange(0, i + 1)));
        }
        i = i + 1;
    }
    proof {
        assert(s@.subrange(0, n as int) =~= s@);
    }
}

/// Appends every byte of `src` to `out`.
fn append_bytes(out: &mut Vec<u8>, src: &[u8])
    ensures
        final(out)@ == old(out)@ + src@,
{
    let n: usize = src.len();
    let mut i: usize = 0;
    while i < n
        invariant
            0 <= i <= n,
            n == src@.len(),
            out@ == old(out)@ + src@.subrange(0, i as int),
        decreases n - i,
    {
        out.push(src[i]);
        proof {
            assert(old(out)@ + src@.subrange(0, i + 1) =~= (old(out)@ + src@.subrange(
                0,
                i as int,
            )).push(src@[i as int]));
        }
        i = i + 1;
    }
    proof {
        assert(src@.subrange(0, n as int) =~= src@);
    }
}

/// The JSON body of a record, exactly `record_json` of its fields.
pub fn render_record_json(rec: &SecretMessage) -> (r: Vec<u8>)
    ensures
        r@ == record_json(rec.id, rec.message@),
{
    let mut out: Vec<u8> = Vec::new();
    out.push(0x7b);
    out.push(QUOTE);
    out.push(0x69);
    out.push(0x64);
    out.push(QUOTE);
    out.push(0x3a);
    out.push(QUOTE);
    proof {
        assert(out@ =~= json_prefix());
    }
    let id_bytes: Vec<u8> = crate::id::format_id(&rec.id);
    append_bytes(&mut out, id_bytes.as_slice());
    out.push(QUOTE);
    out.push(0x2c);
    out.push(QUOTE);
    out.push(0x6d);
    out.push(0x65);
    out.push(0x73);
    out.push(0x73);
    out.push(0x61);
    out.push(0x67);
    out.push(0x65);
    out.push(QUOTE);
    out.push(0x3a);
    out.push(QUOTE);
    proof {
        assert(out@ =~= json_prefix() + id_text(rec.id) + json_mid());
    }
    escape_into(&mut out, rec.message.as_slice());
    out.push(QUOTE);
    out.push(0x7d);
    proof {
        assert(out@ =~= record_json(rec.id, rec.message@));
    }
    out
}

proof fn lemma_escape_concat(a: Seq<u8>, b: Seq<u8>)
    ensures
        escape(a + b) == escape(a) + escape(b),
    decreases a.len(),
{
    if a.len() == 0 {
        assert(a + b =~= b);
        assert(escape(a) + escape(b) =~= escape(b));
    } else {
        assert((a + b)[0] == a[0]);
        assert((a + b).skip(1) =~= a.skip(1) + b);
        lemma_escape_concat(a.skip(1), b);
        assert(escape(a + b) == escaped_byte(a[0]) + (escape(a.skip(1)) + escape(b)));
        assert(escaped_byte(a[0]) + (escape(a.skip(1)) + escape(b)) =~= escape(a) + escape(b));
    }
}

/// Where each part of a record's body stands in the whole.
proof fn lemma_record_json_parts(id: MessageId, m: Seq<u8>, s: Seq<u8>)
    requires
        s == record_json(id, m),
    ensures
        s.len() == 58 + escape(m).len(),
        s.subrange(7, 43) == id_text(id),
        escape(m) == s.subrange(56, s.len() - 2),
        forall|k: int| 0 <= k < 7 ==> s[k] == json_prefix()[k],
        forall|k: int| 43 <= k < 56 ==> s[k] == json_mid()[k - 43],
        s[s.len() - 2] == QUOTE,
        s[s.len() - 1] == 0x7d,
{
    lemma_id_text_valid(id);
    assert(s.subrange(7, 43) =~= id_text(id));
    assert(escape(m) =~= s.subrange(56, s.len() - 2));
}

proof fn lemma_hex_digit_byte_injective(a: int, b: int)
    requires
        0 <= a < 16,
        0 <= b < 16,
        hex_digit_byte(a) == hex_digit_byte(b),
    ensures
        a == b,
{
}

/// Escaping is injective: distinct payloads escape to distinct texts.
pub proof fn lemma_escape_injective(a: Seq<u8>, b: Seq<u8>)
    requires
        escape(a) == escape(b),
    ensures
        a == b,
    decreases a.len(),
{
    if a.len() == 0 {
        if b.len() > 0 {
            assert(escape(b).len() >= escaped_byte(b[0]).len());
            assert(escaped_byte(b[0]).len() >= 1);
            assert(false);
        }
        assert(a =~= b);
    } else if b.len() == 0 {
        assert(escape(a).len() >= escaped_byte(a[0]).len());
        assert(false);
    } else {
        let ea: Seq<u8> = escaped_byte(a[0]);
        let eb: Seq<u8> = escaped_byte(b[0]);
        assert(escape(a) == ea + escape(a.skip(1)));
        assert(escape(b) == eb + escape(b.skip(1)));
        assert(escape(a)[0] == ea[0]);
        assert(escape(b)[0] == eb[0]);
        if a[0] != QUOTE && a[0] != BACKSLASH && a[0] >= 0x20 {
            // the first escaped byte is the raw byte, never a backslash
            assert(ea[0] == a[0]);
            if b[0] == QUOTE || b[0] == BACKSLASH || b[0] < 0x20 {
                assert(eb[0] == BACKSLASH);
                assert(a[0] == BACKSLASH);
                assert(false);
            }
            assert(b[0] == a[0]);
        } else {
            assert(ea[0] == BACKSLASH);
            if b[0] != QUOTE && b[0] != BACKSLASH && b[0] >= 0x20 {
                assert(eb[0] == b[0]);
                assert(b[0] == BACKSLASH);
                assert(false);
            }
            // both escape their first byte; the second byte tells which kind
            assert(escape(a)[1] == ea[1]);
            assert(escape(b)[1] == eb[1]);
            if a[0] == QUOTE {
                assert(ea[1] == QUOTE);
                assert(b[0] == QUOTE) by {
                    if b[0] == BACKSLASH {
                        assert(eb[1] == BACKSLASH);
                        assert(false);
                    } else if b[0] < 0x20 {
                        assert(eb[1] == 0x75);
                        assert(false);
                    }
                }
            } else if a[0] == BACKSLASH {
                assert(ea[1] == BACKSLASH);
                assert(b[0] == BACKSLASH) by {
                    if b[0] == QUOTE {
                        assert(eb[1] == QUOTE);
                        assert(false);
                    } else if b[0] < 0x20 {
                        assert(eb[1] == 0x75);
                        assert(false);
                    }
                }
            } else {
                assert(ea[1] == 0x75);
                assert(b[0] < 0x20 && b[0] != QUOTE && b[0] != BACKSLASH) by {
                    if b[0] == QUOTE {
                        assert(eb[1] == QUOTE);
                        assert(false);
                    } else if b[0] == BACKSLASH {
                        assert(eb[1] == BACKSLASH);
                        assert(false);
                    }
                }
                // the two hexadecimal digits determine the byte
                assert(escape(a)[4] == ea[4]);
                assert(escape(a)[5] == ea[5]);
                assert(escape(b)[4] == eb[4]);
                assert(escape(b)[5] == eb[5]);
                lemma_hex_digit_byte_injective(a[0] as int / 16, b[0] as int / 16);
                lemma_hex_digit_byte_injective(a[0] as int % 16, b[0] as int % 16);
                assert(a[0] as int == 16 * (a[0] as int / 16) + a[0] as int % 16);
                assert(b[0] as int == 16 * (b[0] as int / 16) + b[0] as int % 16);
                assert(a[0] == b[0]);
            }
        }
        assert(a[0] == b[0]);
        assert(ea == eb);
        assert(escape(a.skip(1)) =~= escape(b.skip(1))) by {
            assert(escape(a.skip(1)) =~= escape(a).skip(ea.len() as int));
            assert(escape(b.skip(1)) =~= escape(b).skip(eb.len() as int));
        }
        lemma_escape_injective(a.skip(1), b.skip(1));
        assert(a.len() == b.len());
        assert forall|i: int| 0 <= i < a.len() implies a[i] == #[trigger] b[i] by {
            if i >= 1 {
                assert(a.skip(1)[i - 1] == b.skip(1)[i - 1]);
                assert(a.skip(1)[i - 1] == a[i]);
                assert(b.skip(1)[i - 1] == b[i]);
            }
        }
        assert(a =~= b);
    }
}

fn eq_bytes(a: &[u8], b: &[u8]) -> (r: bool)
    ensures
        r == (a@ == b@),
{
    let n: usize = a.len();
    if n != b.len() {
        return false;
    }
    let mut i: usize = 0;
    while i < n
        invariant
            0 <= i <= n,
            n == a@.len(),
            n == b@.len(),
            forall|k: int| 0 <= k < i ==> a@[k] == b@[k],
        decreases n - i,
    {
        if a[i] != b[i] {
            return false;
        }
        i = i + 1;
    }
    proof {
        assert(a@ =~= b@);
    }
    true
}

/// A body that matches some record matches it under the identifier the
/// body itself spells between positions 7 and 43.
proof fn lemma_match_reduces(s: Seq<u8>, id0: MessageId, id: MessageId, m: Seq<u8>)
    requires
        s == record_json(id, m),
        s.subrange(7, 43) == id_text(id0),
    ensures
        id == id0,
        s == record_json(id0, m),
{
    lemma_record_json_parts(id, m, s);
    lemma_id_text_injective(id, id0);
}

/// Where a scan that has consumed the escape of `out`, a prefix of the
/// encoded payload, stands in the body: either the next escaped byte
/// lies wholly before the closing quote, or the scan has reached it.
proof fn lemma_scan_position(s: Seq<u8>, id0: MessageId, m0: Seq<u8>, out: Seq<u8>, j: int, i: int)
    requires
        s == record_json(id0, m0),
        0 <= j <= m0.len(),
        out == m0.subrange(0, j),
        escape(out) == s.subrange(56, i),
        56 <= i <= s.len(),
    ensures
        i <= s.len() - 2,
        j < m0.len() ==> i + escaped_byte(m0[j]).len() <= s.len() - 2 && (forall|k: int|
            0 <= k < escaped_byte(m0[j]).len() ==> s[i + k] == escaped_byte(m0[j])[k]),
        j == m0.len() ==> i == s.len() - 2 && s[i] == QUOTE && i + 2 == s.len() && s[i + 1]
            == 0x7d,
{
    lemma_record_json_parts(id0, m0, s);
    let l: int = s.len() as int;
    assert(m0 =~= m0.subrange(0, j) + m0.skip(j));
    lemma_escape_concat(m0.subrange(0, j), m0.skip(j));
    let tail: Seq<u8> = escape(m0.skip(j));
    assert(escape(m0) == escape(out) + tail);
    assert(escape(m0).len() == l - 58);
    assert(escape(out).len() == i - 56);
    assert(tail.len() == l - 2 - i);
    assert(forall|k: int|
        0 <= k < tail.len() ==> #[trigger] tail[k] == (escape(out) + tail)[(i - 56) + k]);
    assert(forall|k: int|
        0 <= k < tail.len() ==> #[trigger] s.subrange(56, l - 2)[(i - 56) + k] == s[i + k]);
    assert(forall|k: int| 0 <= k < tail.len() ==> #[trigger] tail[k] == s[i + k]);
    if j < m0.len() {
        assert(m0.skip(j).len() > 0);
        assert(m0.skip(j)[0] == m0[j]);
        assert(tail == escaped_byte(m0[j]) + escape(m0.skip(j).skip(1)));
        assert(escaped_byte(m0[j]).len() <= tail.len());
        assert(forall|k: int|
            0 <= k < escaped_byte(m0[j]).len() ==> #[trigger] tail[k] == escaped_byte(m0[j])[k]);
        assert(forall|k: int|
            0 <= k < escaped_byte(m0[j]).len() ==> s[i + k] == #[trigger] escaped_byte(
                m0[j],
            )[k]);
    } else {
        assert(m0.skip(j) =~= Seq::<u8>::empty());
        assert(escape(Seq::<u8>::empty()) == Seq::<u8>::empty());
        assert(tail.len() == 0);
        assert(i == l - 2);
    }
}

/// Reads a record body back: it accepts exactly the bodies this
/// library renders, and returns the identifier and payload they
/// encode. Every successful reply's body is therefore deserializable
/// into the record it was rendered from.
#[verifier::rlimit(60)]
pub fn parse_record_json(s: &[u8]) -> (r: Option<(MessageId, Vec<u8>)>)
    ensures
        r matches Some(p) ==> s@ == record_json(p.0, p.1@),
        forall|id: MessageId, m: Seq<u8>| s@ == record_json(id, m) ==> r is Some,
{
    let n: usize = s.len();
    if n < 58 {
        proof {
            assert forall|idq: MessageId, mq: Seq<u8>| s@ == record_json(idq, mq) implies false by {
                lemma_record_json_parts(idq, mq, s@);
            }
        }
        return None;
    }
    // the opening `{"id":"`
    if !(s[0] == 0x7b && s[1] == QUOTE && s[2] == 0x69 && s[3] == 0x64 && s[4] == QUOTE && s[5]
        == 0x3a && s[6] == QUOTE) {
        proof {
            assert forall|idq: MessageId, mq: Seq<u8>| s@ == record_json(idq, mq) implies false by {
                lemma_record_json_parts(idq, mq, s@);
            }
        }
        return None;
    }
    let id_slice: &[u8] = vstd::slice::slice_subrange(s, 7, 43);
    let id0: MessageId = match crate::id::parse_id(id_slice) {
        Some(found) => found,
        None => {
            proof {
                assert forall|idq: MessageId, mq: Seq<u8>|
                    s@ == record_json(idq, mq) implies false by {
                    lemma_record_json_parts(idq, mq, s@);
                    crate::id::lemma_id_text_valid(idq);
                    assert(crate::id::is_id_text(id_slice@));
                }
            }
            return None;
        },
    };
    let canon: Vec<u8> = crate::id::format_id(&id0);
    if !eq_bytes(canon.as_slice(), id_slice) {
        proof {
            assert forall|idq: MessageId, mq: Seq<u8>| s@ == record_json(idq, mq) implies false by {
                lemma_record_json_parts(idq, mq, s@);
                crate::id::lemma_id_text_valid(idq);
                assert(id_slice@ == id_text(idq));
                assert(id0 == crate::id::id_of_text(id_text(idq)));
                assert(id0 == idq);
                assert(canon@ == id_slice@);
            }
        }
        return None;
    }
    // the middle `","message":"`
    if !(s[43] == QUOTE && s[44] == 0x2c && s[45] == QUOTE && s[46] == 0x6d && s[47] == 0x65
        && s[48] == 0x73 && s[49] == 0x73 && s[50] == 0x61 && s[51] == 0x67 && s[52] == 0x65
        && s[53] == QUOTE && s[54] == 0x3a && s[55] == QUOTE) {
        proof {
            assert forall|idq: MessageId, mq: Seq<u8>| s@ == record_json(idq, mq) implies false by {
                lemma_record_json_parts(idq, mq, s@);
            }
        }
        return None;
    }
    proof {
        crate::id::lemma_id_text_valid(id0);
        assert(s@.subrange(7, 43) == id_text(id0));
        assert(s@.subrange(0, 56) =~= json_prefix() + id_text(id0) + json_mid()) by {
            assert(forall|k: int|
                7 <= k < 43 ==> #[trigger] s@.subrange(0, 56)[k] == s@.subrange(7, 43)[k - 7]);
        }
    }
    let ghost has_m: bool = exists|m: Seq<u8>| s@ == record_json(id0, m);
    let ghost m0: Seq<u8> = if has_m {
        choose|m: Seq<u8>| s@ == record_json(id0, m)
    } else {
        Seq::empty()
    };
    let ghost mut j: int = 0;
    let mut out: Vec<u8> = Vec::new();
    let mut i: usize = 56;
    proof {
        assert(escape(out@) == Seq::<u8>::empty());
        assert(escape(out@) =~= s@.subrange(56, 56));
        if has_m {
            assert(out@ =~= m0.subrange(0, 0));
        }
    }
    while i < n
        invariant
            56 <= i <= n,
            n == s@.len(),
            n >= 58,
            escape(out@) == s@.subrange(56, i as int),
            s@.subrange(7, 43) == id_text(id0),
            s@.subrange(0, 56) == json_prefix() + id_text(id0) + json_mid(),
            has_m <==> exists|m: Seq<u8>| s@ == record_json(id0, m),
            has_m ==> s@ == record_json(id0, m0),
            has_m ==> 0 <= j <= m0.len() && out@ == m0.subrange(0, j),
        decreases n - i,
    {
        let b: u8 = s[i];
        if b == QUOTE {
            if n - i == 2 && s[i + 1] == 0x7d {
                proof {
                    assert(s@ =~= record_json(id0, out@)) by {
                        assert(record_json(id0, out@) =~= (json_prefix() + id_text(id0)
                            + json_mid()) + escape(out@) + json_suffix());
                        assert(forall|k: int|
                            0 <= k < 56 ==> s@[k] == #[trigger] s@.subrange(0, 56)[k]);
                        assert(forall|k: int|
                            56 <= k < i ==> s@[k] == #[trigger] s@.subrange(56, i as int)[k
                                - 56]);
                    }
                }
                return Some((id0, out));
            }
            proof {
                assert forall|idq: MessageId, mq: Seq<u8>|
                    s@ == record_json(idq, mq) implies false by {
                    lemma_match_reduces(s@, id0, idq, mq);
                    assert(has_m);
                    lemma_record_json_parts(id0, mq, s@);
                    lemma_record_json_parts(id0, m0, s@);
                    lemma_escape_injective(mq, m0);
                    lemma_scan_position(s@, id0, m0, out@, j, i as int);
                    if j < m0.len() {
                        assert(s@[i as int] == escaped_byte(m0[j])[0]);
                        assert(escaped_byte(m0[j])[0] != QUOTE);
                    }
                }
            }
            return None;
        } else if b == BACKSLASH {
            if n - i < 2 {
                proof {
                    assert forall|idq: MessageId, mq: Seq<u8>|
                        s@ == record_json(idq, mq) implies false by {
                        lemma_match_reduces(s@, id0, idq, mq);
                        assert(has_m);
                        lemma_record_json_parts(id0, mq, s@);
                        lemma_record_json_parts(id0, m0, s@);
                        lemma_escape_injective(mq, m0);
                        lemma_scan_position(s@, id0, m0, out@, j, i as int);
                        assert(j < m0.len());
                        assert(s@[i as int] == escaped_byte(m0[j])[0]);
                        assert(m0[j] == QUOTE || m0[j] == BACKSLASH || m0[j] < 0x20);
                        assert(escaped_byte(m0[j]).len() >= 2);
                    }
                }
                return None;
            }
            let c: u8 = s[i + 1];
            if c == QUOTE || c == BACKSLASH {
                let unescaped: u8 = c;
                let ghost prev: Seq<u8> = out@;
                out.push(unescaped);
                proof {
                    assert(escaped_byte(unescaped) =~= seq![BACKSLASH, unescaped]);
                    lemma_escape_push(prev, unescaped);
                    assert(escape(out@) == s@.subrange(56, i as int) + escaped_byte(unescaped));
                    assert(escape(out@) =~= s@.subrange(56, i + 2));
                    if has_m {
                        lemma_record_json_parts(id0, m0, s@);
                        lemma_scan_position(s@, id0, m0, prev, j, i as int);
                        assert(j < m0.len());
                        assert(s@[i as int] == escaped_byte(m0[j])[0]);
                        assert(m0[j] == QUOTE || m0[j] == BACKSLASH || m0[j] < 0x20);
                        assert(escaped_byte(m0[j]).len() >= 2);
                        assert(s@[i + 1] == escaped_byte(m0[j])[1]);
                        assert(m0[j] == unescaped);
                        assert(out@ =~= m0.subrange(0, j + 1));
                        j = j + 1;
                    }
                }
                i = i + 2;
            } else if c == 0x75 {
                if n - i < 6 {
                    proof {
                        assert forall|idq: MessageId, mq: Seq<u8>|
                            s@ == record_json(idq, mq) implies false by {
                            lemma_match_reduces(s@, id0, idq, mq);
                            assert(has_m);
                            lemma_record_json_parts(id0, mq, s@);
                            lemma_record_json_parts(id0, m0, s@);
                            lemma_escape_injective(mq, m0);
                            lemma_scan_position(s@, id0, m0, out@, j, i as int);
                            assert(j < m0.len());
                            assert(s@[i as int] == escaped_byte(m0[j])[0]);
                            assert(m0[j] == QUOTE || m0[j] == BACKSLASH || m0[j] < 0x20);
                            assert(escaped_byte(m0[j]).len() >= 2);
                            assert(s@[i + 1] == escaped_byte(m0[j])[1]);
                            assert(m0[j] < 0x20);
                            assert(escaped_byte(m0[j]).len() == 6);
                        }
                    }
                    return None;
                }
                let z1: u8 = s[i + 2];
                let z2: u8 = s[i + 3];
                let h1: u8 = s[i + 4];
                let h2: u8 = s[i + 5];
                let v1: u8 = if 0x30 <= h1 && h1 <= 0x39 {
                    h1 - 0x30
                } else if 0x61 <= h1 && h1 <= 0x66 {
                    h1 - 0x57
                } else {
                    0xff
                };
                let v2: u8 = if 0x30 <= h2 && h2 <= 0x39 {
                    h2 - 0x30
                } else if 0x61 <= h2 && h2 <= 0x66 {
                    h2 - 0x57
                } else {
                    0xff
                };
                if !(z1 == 0x30 && z2 == 0x30 && v1 < 2 && v2 < 16) {
                    proof {
                        assert forall|idq: MessageId, mq: Seq<u8>|
                            s@ == record_json(idq, mq) implies false by {
                            lemma_match_reduces(s@, id0, idq, mq);
                            assert(has_m);
                            lemma_record_json_parts(id0, mq, s@);
                            lemma_record_json_parts(id0, m0, s@);
                            lemma_escape_injective(mq, m0);
                            lemma_scan_position(s@, id0, m0, out@, j, i as int);
                            assert(j < m0.len());
                            assert(s@[i as int] == escaped_byte(m0[j])[0]);
                            assert(m0[j] == QUOTE || m0[j] == BACKSLASH || m0[j] < 0x20);
                            assert(escaped_byte(m0[j]).len() >= 2);
                            assert(s@[i + 1] == escaped_byte(m0[j])[1]);
                            let e: u8 = m0[j];
                            assert(e < 0x20);
                            assert(escaped_byte(e).len() == 6);
                            assert(s@[i + 2] == escaped_byte(e)[2]);
                            assert(s@[i + 3] == escaped_byte(e)[3]);
                            assert(s@[i + 4] == escaped_byte(e)[4]);
                            assert(s@[i + 5] == escaped_byte(e)[5]);
                            assert(s@[i + 4] == hex_digit_byte(e as int / 16));
                            assert(s@[i + 5] == hex_digit_byte(e as int % 16));
                            assert(0 <= e as int / 16 < 2);
                            assert(0 <= e as int % 16 < 16);
                        }
                    }
                    return None;
                }
                let unescaped: u8 = 16 * v1 + v2;
                if unescaped >= 0x20 {
                    proof {
                        assert forall|idq: MessageId, mq: Seq<u8>|
                            s@ == record_json(idq, mq) implies false by {
                            lemma_match_reduces(s@, id0, idq, mq);
                            assert(has_m);
                            lemma_record_json_parts(id0, mq, s@);
                            lemma_record_json_parts(id0, m0, s@);
                            lemma_escape_injective(mq, m0);
                            lemma_scan_position(s@, id0, m0, out@, j, i as int);
                            assert(j < m0.len());
                            assert(s@[i as int] == escaped_byte(m0[j])[0]);
                            assert(m0[j] == QUOTE || m0[j] == BACKSLASH || m0[j] < 0x20);
                            assert(escaped_byte(m0[j]).len() >= 2);
                            assert(s@[i + 1] == escaped_byte(m0[j])[1]);
                            let e: u8 = m0[j];
                            assert(e < 0x20);
                            assert(escaped_byte(e).len() == 6);
                            assert(s@[i + 4] == escaped_byte(e)[4]);
                            assert(s@[i + 5] == escaped_byte(e)[5]);
                            assert(h1 == hex_digit_byte(e as int / 16));
                            assert(h2 == hex_digit_byte(e as int % 16));
                            assert(v1 as int == e as int / 16);
                            assert(v2 as int == e as int % 16);
                            assert(e as int == 16 * (e as int / 16) + (e as int % 16));
                            assert(unescaped as int == e as int);
                        }
                    }
                    return None;
                }
                let ghost prev: Seq<u8> = out@;
                out.push(unescaped);
                proof {
                    assert(escaped_byte(unescaped) =~= seq![
                        BACKSLASH,
                        0x75,
                        0x30,
                        0x30,
                        hex_digit_byte(unescaped as int / 16),
                        hex_digit_byte(unescaped as int % 16),
                    ]);
                    assert(unescaped as int / 16 == v1 as int && unescaped as int % 16
                        == v2 as int) by (nonlinear_arith)
                        requires
                            unescaped as int == 16 * (v1 as int) + (v2 as int),
                            0 <= v2 < 16,
                            0 <= v1,
                    ;
                    assert(hex_digit_byte(v1 as int) == h1);
                    assert(hex_digit_byte(v2 as int) == h2);
                    lemma_escape_push(prev, unescaped);
                    assert(escape(out@) == s@.subrange(56, i as int) + escaped_byte(unescaped));
                    assert(escape(out@) =~= s@.subrange(56, i + 6));
                    if has_m {
                        lemma_record_json_parts(id0, m0, s@);
                        lemma_scan_position(s@, id0, m0, prev, j, i as int);
                        assert(j < m0.len());
                        assert(s@[i as int] == escaped_byte(m0[j])[0]);
                        assert(m0[j] == QUOTE || m0[j] == BACKSLASH || m0[j] < 0x20);
                        assert(escaped_byte(m0[j]).len() >= 2);
                        assert(s@[i + 1] == escaped_byte(m0[j])[1]);
                        let e: u8 = m0[j];
                        assert(e < 0x20);
                        assert(escaped_byte(e).len() == 6);
                        assert(s@[i + 4] == escaped_byte(e)[4]);
                        assert(s@[i + 5] == escaped_byte(e)[5]);
                        assert(h1 == hex_digit_byte(e as int / 16));
                        assert(h2 == hex_digit_byte(e as int % 16));
                        assert(v1 as int == e as int / 16);
                        assert(v2 as int == e as int % 16);
                        assert(e as int == 16 * (e as int / 16) + (e as int % 16));
                        assert(e == unescaped);
                        assert(out@ =~= m0.subrange(0, j + 1));
                        j = j + 1;
                    }
                }
                i = i + 6;
            } else {
                proof {
                    assert forall|idq: MessageId, mq: Seq<u8>|
                        s@ == record_json(idq, mq) implies false by {
                        lemma_match_reduces(s@, id0, idq, mq);
                        assert(has_m);
                        lemma_record_json_parts(id0, mq, s@);
                        lemma_record_json_parts(id0, m0, s@);
                        lemma_escape_injective(mq, m0);
                        lemma_scan_position(s@, id0, m0, out@, j, i as int);
                        assert(j < m0.len());
                        assert(s@[i as int] == escaped_byte(m0[j])[0]);
                        assert(m0[j] == QUOTE || m0[j] == BACKSLASH || m0[j] < 0x20);
                        assert(escaped_byte(m0[j]).len() >= 2);
                        assert(s@[i + 1] == escaped_byte(m0[j])[1]);
                    }
                }
                return None;
            }
        } else if b < 0x20 {
            proof {
                assert forall|idq: MessageId, mq: Seq<u8>|
                    s@ == record_json(idq, mq) implies false by {
                    lemma_match_reduces(s@, id0, idq, mq);
                    assert(has_m);
                    lemma_record_json_parts(id0, mq, s@);
                    lemma_record_json_parts(id0, m0, s@);
                    lemma_escape_injective(mq, m0);
                    lemma_scan_position(s@, id0, m0, out@, j, i as int);
                    assert(j < m0.len());
                    assert(s@[i as int] == escaped_byte(m0[j])[0]);
                }
            }
            return None;
        } else {
            let ghost prev: Seq<u8> = out@;
            out.push(b);
            proof {
                assert(escaped_byte(b) =~= seq![b]);
                lemma_escape_push(prev, b);
                assert(escape(out@) == s@.subrange(56, i as int) + escaped_byte(b));
                assert(escape(out@) =~= s@.subrange(56, i + 1));
                if has_m {
                    lemma_record_json_parts(id0, m0, s@);
                    lemma_scan_position(s@, id0, m0, prev, j, i as int);
                    assert(j < m0.len());
                    assert(s@[i as int] == escaped_byte(m0[j])[0]);
                    assert(m0[j] == b);
                    assert(out@ =~= m0.subrange(0, j + 1));
                    j = j + 1;
                }
            }
            i = i + 1;
        }
    }
    proof {
        assert forall|idq: MessageId, mq: Seq<u8>| s@ == record_json(idq, mq) implies false by {
            lemma_match_reduces(s@, id0, idq, mq);
            assert(has_m);
            lemma_record_json_parts(id0, mq, s@);
            lemma_record_json_parts(id0, m0, s@);
            lemma_escape_injective(mq, m0);
            lemma_scan_position(s@, id0, m0, out@, j, i as int);
        }
    }
    None
}

/// The body determines the record: two records with the same JSON body
/// are the same record, so a reader of a successful response can
/// recover the identifier and the payload unambiguously.
pub proof fn lemma_record_json_injective(id1: MessageId, m1: Seq<u8>, id2: MessageId, m2: Seq<u8>)
    requires
        record_json(id1, m1) == record_json(id2, m2),
    ensures
        id1 == id2,
        m1 == m2,
{
    lemma_id_text_valid(id1);
    lemma_id_text_valid(id2);
    let r1: Seq<u8> = record_json(id1, m1);
    let r2: Seq<u8> = record_json(id2, m2);
    assert(id_text(id1) =~= r1.subrange(7, 43));
    assert(id_text(id2) =~= r2.subrange(7, 43));
    lemma_id_text_injective(id1, id2);
    let n1: int = escape(m1).len() as int;
    let n2: int = escape(m2).len() as int;
    assert(r1.len() == 58 + n1);
    assert(r2.len() == 58 + n2);
    assert(n1 == n2);
    assert(escape(m1) =~= r1.subrange(56, 56 + n1));
    assert(escape(m2) =~= r2.subrange(56, 56 + n2));
    lemma_escape_injective(m1, m2);
}

} // verus!
