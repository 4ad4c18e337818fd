//! Base64 (standard alphabet, padded) used by the text-tree codec to carry
//! raw bytes inside string nodes.
//!
//! The encoding is specified directly as a function on byte sequences and
//! the encoder and decoder are proved against that statement; the decoder
//! accepts exactly the canonical, padded form the encoder emits.

use vstd::prelude::*;
use vstd::string::StringSliceAdditionalSpecFns;
use vstd::utf8::*;

use crate::strings::{bytes_of_chars, chars_of_bytes, lemma_ascii_bytes_utf8, utf8_to_string};

verus! {

/// The alphabet byte for a six-bit group.
pub open spec fn b64_byte(n: u8) -> u8
    recommends
        n < 64,
{
    if n < 26 {
        (n + 65) as u8  // 'A'..'Z'
    } else if n < 52 {
        (n + 71) as u8  // 'a'..'z'
    } else if n < 62 {
        (n - 4) as u8  // '0'..'9'
    } else if n == 62 {
        43  // '+'
    } else {
        47  // '/'
    }
}

/// The six-bit group an alphabet byte stands for, if any.
pub open spec fn b64_val(b: u8) -> Option<u8> {
    if 65 <= b && b <= 90 {
        Some((b - 65) as u8)
    } else if 97 <= b && b <= 122 {
        Some((b - 71) as u8)
    } else if 48 <= b && b <= 57 {
        Some((b + 4) as u8)
    } else if b == 43 {
        Some(62u8)
    } else if b == 47 {
        Some(63u8)
    } else {
        None
    }
}

/// The canonical base64 encoding of a byte sequence, as ASCII bytes:
/// three input bytes become four alphabet bytes, and a short final group
/// is completed with `=` padding (byte 61).
pub open spec fn b64_bytes_of(d: Seq<u8>) -> Seq<u8>
    decreases d.len(),
{
    if d.len() == 0 {
        Seq::empty()
    } else if d.len() == 1 {
        seq![
            b64_byte(d[0] >> 2),
            b64_byte(((d[0] & 0x3) << 4) as u8),
            61,
            61,
        ]
    } else if d.len() == 2 {
        seq![
            b64_byte(d[0] >> 2),
            b64_byte((((d[0] & 0x3) << 4) | (d[1] >> 4)) as u8),
            b64_byte(((d[1] & 0xF) << 2) as u8),
            61,
        ]
    } else {
        seq![
            b64_byte(d[0] >> 2),
            b64_byte((((d[0] & 0x3) << 4) | (d[1] >> 4)) as u8),
            b64_byte((((d[1] & 0xF) << 2) | (d[2] >> 6)) as u8),
            b64_byte((d[2] & 0x3F) as u8),
        ] + b64_bytes_of(d.subrange(3, d.len() as int))
    }
}

/// Strict parse of canonical base64 ASCII bytes: four-byte groups, `=`
/// padding only at the very end, and zero in the unused low bits of the
/// last group.
pub open spec fn b64_parse_bytes(b: Seq<u8>) -> Option<Seq<u8>>
    decreases b.len(),
{
    if b.len() == 0 {
        Some(Seq::empty())
    } else if b.len() < 4 {
        None
    } else {
        match (b64_val(b[0]), b64_val(b[1])) {
            (Some(v0), Some(v1)) => {
                if b[2] == 61 {
                    if b[3] == 61 && b.len() == 4 && v1 & 0xF == 0 {
                        Some(seq![((v0 << 2) | (v1 >> 4)) as u8])
                    } else {
                        None
                    }
                } else {
                    match b64_val(b[2]) {
                        Some(v2) => {
                            if b[3] == 61 {
                                if b.len() == 4 && v2 & 0x3 == 0 {
                                    Some(
                                        seq![
                                            ((v0 << 2) | (v1 >> 4)) as u8,
                                            (((v1 & 0xF) << 4) | (v2 >> 2)) as u8,
                                        ],
                                    )
                                } else {
                                    None
                                }
                            } else {
                                match b64_val(b[3]) {
                                    Some(v3) => {
                                        match b64_parse_bytes(b.subrange(4, b.len() as int)) {
                                            Some(rest) => Some(
                                                seq![
                                                    ((v0 << 2) | (v1 >> 4)) as u8,
                                                    (((v1 & 0xF) << 4) | (v2 >> 2)) as u8,
                                                    (((v2 & 0x3) << 6) | v3) as u8,
                                                ] + rest,
                                            ),
                                            None => None,
                                        }
                                    },
                                    None => None,
                                }
                            }
                        },
                        None => None,
                    }
                }
            },
            _ => None,
        }
    }
}

/// The canonical base64 encoding of a byte sequence, as text.
pub open spec fn b64_of(d: Seq<u8>) -> Seq<char> {
    chars_of_bytes(b64_bytes_of(d))
}

/// Strict parse of base64 text; anything outside the canonical padded
/// form parses to nothing.
pub open spec fn b64_parse(s: Seq<char>) -> Option<Seq<u8>> {
    if is_ascii_chars(s) {
        b64_parse_bytes(bytes_of_chars(s))
    } else {
        None
    }
}

/// Alphabet bytes decode back to their six-bit group, are not the padding
/// byte, and are ASCII.
proof fn lemma_b64_byte(n: u8)
    requires
        n < 64,
    ensures
        b64_val(b64_byte(n)) == Some(n),
        b64_byte(n) != 61,
        b64_byte(n) < 128,
{
}

/// Encoding a sequence whose length is a multiple of three and then more
/// bytes is the concatenation of the two encodings.
proof fn lemma_b64_bytes_of_append(d1: Seq<u8>, d2: Seq<u8>)
    requires
        d1.len() % 3 == 0,
    ensures
        b64_bytes_of(d1 + d2) == b64_bytes_of(d1) + b64_bytes_of(d2),
    decreases d1.len(),
{
    if d1.len() == 0 {
        assert(d1 + d2 =~= d2);
        assert(b64_bytes_of(d1) + b64_bytes_of(d2) =~= b64_bytes_of(d2));
    } else {
        let rest1 = d1.subrange(3, d1.len() as int);
        lemma_b64_bytes_of_append(rest1, d2);
        if d2.len() == 0 {
            assert(d1 + d2 =~= d1);
            assert(b64_bytes_of(d1) + b64_bytes_of(d2) =~= b64_bytes_of(d1));
        } else {
            let c = d1 + d2;
            assert(c.len() >= 3);
            assert(c[0] == d1[0] && c[1] == d1[1] && c[2] == d1[2]);
            assert(c.subrange(3, c.len() as int) =~= rest1 + d2);
            assert(b64_bytes_of(d1 + d2) =~= b64_bytes_of(d1) + b64_bytes_of(d2));
        }
    }
}

/// Strict parsing inverts the canonical encoding, at the byte level.
proof fn lemma_b64_parse_bytes_of(d: Seq<u8>)
    ensures
        b64_parse_bytes(b64_bytes_of(d)) == Some(d),
    decreases d.len(),
{
    if d.len() == 0 {
    } else if d.len() == 1 {
        let b0 = d[0];
        let v0 = b0 >> 2;
        let v1 = ((b0 & 0x3) << 4) as u8;
        assert(v0 < 64 && v1 < 64 && v1 & 0xF == 0 && ((v0 << 2) | (v1 >> 4)) == b0)
            by (bit_vector)
            requires
                v0 == b0 >> 2 && v1 == ((b0 & 0x3) << 4) as u8,
        ;
        lemma_b64_byte(v0);
        lemma_b64_byte(v1);
        assert(b64_parse_bytes(b64_bytes_of(d)) matches Some(r) && r =~= d);
    } else if d.len() == 2 {
        let b0 = d[0];
        let b1 = d[1];
        let v0 = b0 >> 2;
        let v1 = (((b0 & 0x3) << 4) | (b1 >> 4)) as u8;
        let v2 = ((b1 & 0xF) << 2) as u8;
        assert(v0 < 64 && v1 < 64 && v2 < 64 && v2 & 0x3 == 0 && ((v0 << 2) | (v1 >> 4)) == b0
            && (((v1 & 0xF) << 4) | (v2 >> 2)) == b1)
            by (bit_vector)
            requires
                v0 == b0 >> 2 && v1 == (((b0 & 0x3) << 4) | (b1 >> 4)) as u8 && v2 == ((b1 & 0xF)
                    << 2) as u8,
        ;
        lemma_b64_byte(v0);
        lemma_b64_byte(v1);
        lemma_b64_byte(v2);
        assert(b64_parse_bytes(b64_bytes_of(d)) matches Some(r) && r =~= d);
    } else {
        let b0 = d[0];
        let b1 = d[1];
        let b2 = d[2];
        let v0 = b0 >> 2;
        let v1 = (((b0 & 0x3) << 4) | (b1 >> 4)) as u8;
        let v2 = (((b1 & 0xF) << 2) | (b2 >> 6)) as u8;
        let v3 = (b2 & 0x3F) as u8;
        assert(v0 < 64 && v1 < 64 && v2 < 64 && v3 < 64 && ((v0 << 2) | (v1 >> 4)) == b0 && (((v1
            & 0xF) << 4) | (v2 >> 2)) == b1 && (((v2 & 0x3) << 6) | v3) == b2)
            by (bit_vector)
            requires
                v0 == b0 >> 2 && v1 == (((b0 & 0x3) << 4) | (b1 >> 4)) as u8 && v2 == (((b1 & 0xF)
                    << 2) | (b2 >> 6)) as u8 && v3 == (b2 & 0x3F) as u8,
        ;
        lemma_b64_byte(v0);
        lemma_b64_byte(v1);
        lemma_b64_byte(v2);
        lemma_b64_byte(v3);
        let rest = d.subrange(3, d.len() as int);
        lemma_b64_parse_bytes_of(rest);
        let eb = b64_bytes_of(d);
        assert(eb.subrange(4, eb.len() as int) =~= b64_bytes_of(rest));
        assert(b64_parse_bytes(eb) matches Some(r) && r =~= d);
    }
}

/// Every byte of a canonical encoding is ASCII.
proof fn lemma_b64_bytes_of_ascii(d: Seq<u8>)
    ensures
        forall|i: int| 0 <= i < b64_bytes_of(d).len() ==> b64_bytes_of(d)[i] < 128,
    decreases d.len(),
{
    assert(forall|n: u8| #[trigger] b64_byte(n) < 128);
    if d.len() > 2 {
        lemma_b64_bytes_of_ascii(d.subrange(3, d.len() as int));
        assert forall|i: int| 0 <= i < b64_bytes_of(d).len() implies b64_bytes_of(d)[i]
            < 128 by {
            if i >= 4 {
                assert(b64_bytes_of(d)[i] == b64_bytes_of(d.subrange(3, d.len() as int))[i - 4]);
            }
        }
    }
}

/// Strict parsing inverts the canonical encoding.
pub proof fn lemma_b64_round_trip(d: Seq<u8>)
    ensures
        b64_parse(b64_of(d)) == Some(d),
{
    let eb = b64_bytes_of(d);
    lemma_b64_bytes_of_ascii(d);
    lemma_b64_parse_bytes_of(d);
    assert(is_ascii_chars(chars_of_bytes(eb)));
    assert(bytes_of_chars(chars_of_bytes(eb)) =~= eb);
}

/// The alphabet byte for a six-bit group.
fn sextet(n: u8) -> (r: u8)
    ensures
        r == b64_byte(n),
{
    if n < 26 {
        n + 65
    } else if n < 52 {
        n + 71
    } else if n < 62 {
        n - 4
    } else if n == 62 {
        43
    } else {
        47
    }
}

/// The six-bit group an alphabet byte stands for, if any.
fn sextet_value(b: u8) -> (r: Option<u8>)
    ensures
        r == b64_val(b),
{
    if 65 <= b && b <= 90 {
        Some(b - 65)
    } else if 97 <= b && b <= 122 {
        Some(b - 71)
    } else if 48 <= b && b <= 57 {
        Some(b + 4)
    } else if b == 43 {
        Some(62)
    } else if b == 47 {
        Some(63)
    } else {
        None
    }
}

/// Encodes bytes as canonical, padded base64 text.
#[verifier::loop_isolation(false)]
pub fn b64_encode(data: &[u8]) -> (r: String)
    ensures
        r@ == b64_of(data@),
{
    let mut out: Vec<u8> = Vec::new();
    let mut i: usize = 0;
    while data.len() - i >= 3
        invariant
            i <= data@.len(),
            i % 3 == 0,
            out@ == b64_bytes_of(data@.subrange(0, i as int)),
        decreases data@.len() - i,
    {
        let b0 = data[i];
        let b1 = data[i + 1];
        let b2 = data[i + 2];
        out.push(sextet(b0 >> 2));
        out.push(sextet(((b0 & 0x3) << 4) | (b1 >> 4)));
        out.push(sextet(((b1 & 0xF) << 2) | (b2 >> 6)));
        out.push(sextet(b2 & 0x3F));
        proof {
            let chunk = data@.subrange(i as int, i + 3 as int);
            lemma_b64_bytes_of_append(data@.subrange(0, i as int), chunk);
            assert(data@.subrange(0, i + 3 as int) =~= data@.subrange(0, i as int) + chunk);
            assert(chunk.subrange(3, chunk.len() as int) =~= Seq::<u8>::empty());
            assert(b64_bytes_of(Seq::<u8>::empty()) == Seq::<u8>::empty());
            assert(b64_bytes_of(chunk) =~= seq![
                b64_byte(chunk[0] >> 2),
                b64_byte((((chunk[0] & 0x3) << 4) | (chunk[1] >> 4)) as u8),
                b64_byte((((chunk[1] & 0xF) << 2) | (chunk[2] >> 6)) as u8),
                b64_byte((chunk[2] & 0x3F) as u8),
            ]);
            assert(chunk[0] == data@[i as int] && chunk[1] == data@[i as int + 1] && chunk[2]
                == data@[i as int + 2]);
            assert(out@ =~= b64_bytes_of(data@.subrange(0, i + 3 as int)));
        }
        i = i + 3;
    }
    if data.len() - i == 1 {
        let b0 = data[i];
        out.push(sextet(b0 >> 2));
        out.push(sextet((b0 & 0x3) << 4));
        out.push(61);
        out.push(61);
        proof {
            let chunk = data@.subrange(i as int, data@.len() as int);
            lemma_b64_bytes_of_append(data@.subrange(0, i as int), chunk);
            assert(data@ =~= data@.subrange(0, i as int) + chunk);
            assert(out@ =~= b64_bytes_of(data@));
        }
    } else if data.len() - i == 2 {
        let b0 = data[i];
        let b1 = data[i + 1];
        out.push(sextet(b0 >> 2));
        out.push(sextet(((b0 & 0x3) << 4) | (b1 >> 4)));
        out.push(sextet((b1 & 0xF) << 2));
        out.push(61);
        proof {
            let chunk = data@.subrange(i as int, data@.len() as int);
            lemma_b64_bytes_of_append(data@.subrange(0, i as int), chunk);
            assert(data@ =~= data@.subrange(0, i as int) + chunk);
            assert(out@ =~= b64_bytes_of(data@));
        }
    } else {
        proof {
            assert(data@.subrange(0, i as int) =~= data@);
        }
    }
    proof {
        lemma_b64_bytes_of_ascii(data@);
        lemma_ascii_bytes_utf8(out@);
    }
    let s = utf8_to_string(out);
    match s {
        Some(text) => text,
        None => {
            proof {
                assert(false);
            }
            String::new()
        },
    }
}

/// Decodes canonical, padded base64 text; anything else yields nothing.
#[verifier::loop_isolation(false)]
pub fn b64_decode(s: &str) -> (r: Option<Vec<u8>>)
    ensures
        r is Some <==> b64_parse(s@) is Some,
        r matches Some(v) ==> b64_parse(s@) == Some(v@),
{
    if !s.is_ascii() {
        return None;
    }
    proof {
        vstd::string::is_ascii_spec_bytes(s);
        assert(s.spec_bytes() =~= bytes_of_chars(s@));
    }
    let b = s.as_bytes();
    let ghost bs = b@;
    let mut out: Vec<u8> = Vec::new();
    let mut i: usize = 0;
    proof {
        assert(bs.subrange(0, bs.len() as int) =~= bs);
        match b64_parse_bytes(bs) {
            Some(rest) => {
                assert(out@ + rest =~= rest);
            },
            None => {},
        }
    }
    while i < b.len()
        invariant
            i <= bs.len(),
            i % 4 == 0,
            b64_parse_bytes(bs) == (match b64_parse_bytes(bs.subrange(i as int, bs.len() as int)) {
                Some(rest) => Some(out@ + rest),
                None => None::<Seq<u8>>,
            }),
        decreases bs.len() - i,
    {
        let ghost tail = bs.subrange(i as int, bs.len() as int);
        if b.len() - i < 4 {
            return None;
        }
        let v0 = match sextet_value(b[i]) {
            Some(v) => v,
            None => {
                return None;
            },
        };
        let v1 = match sextet_value(b[i + 1]) {
            Some(v) => v,
            None => {
                return None;
            },
        };
        if b[i + 2] == 61 {
            if b[i + 3] == 61 && i + 4 == b.len() && v1 & 0xF == 0 {
                out.push((v0 << 2) | (v1 >> 4));
                proof {
                    assert(tail.subrange(4, tail.len() as int) =~= Seq::<u8>::empty());
                    assert(b64_parse_bytes(bs) == Some(out@));
                }
                return Some(out);
            } else {
                return None;
            }
        }
        let v2 = match sextet_value(b[i + 2]) {
            Some(v) => v,
            None => {
                return None;
            },
        };
        if b[i + 3] == 61 {
            if i + 4 == b.len() && v2 & 0x3 == 0 {
                out.push((v0 << 2) | (v1 >> 4));
                out.push(((v1 & 0xF) << 4) | (v2 >> 2));
                proof {
                    assert(tail.subrange(4, tail.len() as int) =~= Seq::<u8>::empty());
                    assert(b64_parse_bytes(bs) == Some(out@));
                }
                return Some(out);
            } else {
                return None;
            }
        }
        let v3 = match sextet_value(b[i + 3]) {
            Some(v) => v,
            None => {
                return None;
            },
        };
        out.push((v0 << 2) | (v1 >> 4));
        out.push(((v1 & 0xF) << 4) | (v2 >> 2));
        out.push(((v2 & 0x3) << 6) | v3);
        proof {
            assert(tail.subrange(4, tail.len() as int) =~= bs.subrange(
                i + 4 as int,
                bs.len() as int,
            ));
            assert(tail[0] == bs[i as int] && tail[1] == bs[i + 1] && tail[2] == bs[i + 2]
                && tail[3] == bs[i + 3]);
        }
        i = i + 4;
    }
    proof {
        assert(bs.subrange(i as int, bs.len() as int) =~= Seq::<u8>::empty());
    }
    Some(out)
}

} // verus!
