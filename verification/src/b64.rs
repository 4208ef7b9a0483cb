//! Base64url (unpadded) encoding and decoding over ASCII text, used for the
//! segments of a signed token. A character of the input plays the role of a
//! byte: callers only encode sequences whose characters are below 128.
use vstd::prelude::*;

verus! {

/// Six-bit value of a base64url alphabet character; -1 for any other character.
pub open spec fn b64_val(c: char) -> int {
    if 'A' <= c && c <= 'Z' {
        c as int - 'A' as int
    } else if 'a' <= c && c <= 'z' {
        c as int - 'a' as int + 26
    } else if '0' <= c && c <= '9' {
        c as int - '0' as int + 52
    } else if c == '-' {
        62
    } else if c == '_' {
        63
    } else {
        -1
    }
}

pub open spec fn is_b64_char(c: char) -> bool {
    0 <= b64_val(c)
}

/// The base64url alphabet character of a six-bit value.
pub open spec fn b64_char(v: int) -> char {
    if 0 <= v && v < 26 {
        (('A' as int + v) as u8) as char
    } else if 26 <= v && v < 52 {
        (('a' as int + v - 26) as u8) as char
    } else if 52 <= v && v < 62 {
        (('0' as int + v - 52) as u8) as char
    } else if v == 62 {
        '-'
    } else {
        '_'
    }
}

pub proof fn lemma_b64_char_val(v: int)
    requires
        0 <= v < 64,
    ensures
        b64_val(b64_char(v)) == v,
        is_b64_char(b64_char(v)),
{
}

pub proof fn lemma_b64_char_not_dot(c: char)
    requires
        is_b64_char(c),
    ensures
        c != '.',
        (c as int) < 128,
{
}

/// Base64url encoding, three input characters (as bytes) to four alphabet
/// characters, without padding.
pub open spec fn spec_b64_encode(s: Seq<char>) -> Seq<char>
    decreases s.len(),
{
    if s.len() == 0 {
        Seq::<char>::empty()
    } else {
        let b0 = s[0] as int;
        if s.len() == 1 {
            seq![b64_char(b0 / 4), b64_char((b0 % 4) * 16)]
        } else {
            let b1 = s[1] as int;
            if s.len() == 2 {
                seq![
                    b64_char(b0 / 4),
                    b64_char((b0 % 4) * 16 + b1 / 16),
                    b64_char((b1 % 16) * 4),
                ]
            } else {
                let b2 = s[2] as int;
                seq![
                    b64_char(b0 / 4),
                    b64_char((b0 % 4) * 16 + b1 / 16),
                    b64_char((b1 % 16) * 4 + b2 / 64),
                    b64_char(b2 % 64),
                ] + spec_b64_encode(s.skip(3))
            }
        }
    }
}

/// Base64url decoding; `None` for anything that is not the canonical unpadded
/// encoding of some sequence of bytes (bad characters, a length of 4k+1, or
/// nonzero trailing bits).
pub open spec fn spec_b64_decode(s: Seq<char>) -> Option<Seq<char>>
    decreases s.len(),
{
    if s.len() == 0 {
        Some(Seq::<char>::empty())
    } else if s.len() == 1 {
        None
    } else if s.len() == 2 {
        let v0 = b64_val(s[0]);
        let v1 = b64_val(s[1]);
        if 0 <= v0 && 0 <= v1 && v1 % 16 == 0 {
            Some(seq![((v0 * 4 + v1 / 16) as u8) as char])
        } else {
            None
        }
    } else if s.len() == 3 {
        let v0 = b64_val(s[0]);
        let v1 = b64_val(s[1]);
        let v2 = b64_val(s[2]);
        if 0 <= v0 && 0 <= v1 && 0 <= v2 && v2 % 4 == 0 {
            Some(
                seq![
                    ((v0 * 4 + v1 / 16) as u8) as char,
                    (((v1 % 16) * 16 + v2 / 4) as u8) as char,
                ],
            )
        } else {
            None
        }
    } else {
        let v0 = b64_val(s[0]);
        let v1 = b64_val(s[1]);
        let v2 = b64_val(s[2]);
        let v3 = b64_val(s[3]);
        if 0 <= v0 && 0 <= v1 && 0 <= v2 && 0 <= v3 {
            match spec_b64_decode(s.skip(4)) {
                Some(rest) => Some(
                    seq![
                        ((v0 * 4 + v1 / 16) as u8) as char,
                        (((v1 % 16) * 16 + v2 / 4) as u8) as char,
                        (((v2 % 4) * 64 + v3) as u8) as char,
                    ] + rest,
                ),
                None => None,
            }
        } else {
            None
        }
    }
}

/// Every character that the encoder emits is in the base64url alphabet.
pub proof fn lemma_b64_encode_chars(s: Seq<char>)
    ensures
        forall|i: int|
            0 <= i < spec_b64_encode(s).len() ==> is_b64_char(#[trigger] spec_b64_encode(s)[i]),
    decreases s.len(),
{
    if s.len() == 0 {
    } else if s.len() == 1 {
        let b0 = s[0] as int;
        lemma_b64_char_any(b0 / 4);
        lemma_b64_char_any((b0 % 4) * 16);
    } else if s.len() == 2 {
        let b0 = s[0] as int;
        let b1 = s[1] as int;
        lemma_b64_char_any(b0 / 4);
        lemma_b64_char_any((b0 % 4) * 16 + b1 / 16);
        lemma_b64_char_any((b1 % 16) * 4);
    } else {
        let b0 = s[0] as int;
        let b1 = s[1] as int;
        let b2 = s[2] as int;
        lemma_b64_encode_chars(s.skip(3));
        lemma_b64_char_any(b0 / 4);
        lemma_b64_char_any((b0 % 4) * 16 + b1 / 16);
        lemma_b64_char_any((b1 % 16) * 4 + b2 / 64);
        lemma_b64_char_any(b2 % 64);
        assert forall|i: int| 0 <= i < spec_b64_encode(s).len() implies is_b64_char(
            #[trigger] spec_b64_encode(s)[i],
        ) by {
            if i >= 4 {
                assert(spec_b64_encode(s)[i] == spec_b64_encode(s.skip(3))[i - 4]);
            }
        }
    }
}

/// Whatever value `b64_char` is given, the character it yields is in the alphabet.
pub proof fn lemma_b64_char_any(v: int)
    ensures
        is_b64_char(b64_char(v)),
{
    if 0 <= v && v < 64 {
        lemma_b64_char_val(v);
    }
}

/// Encoding a sequence whose length is a multiple of three distributes over
/// concatenation.
pub proof fn lemma_b64_encode_append(x: Seq<char>, y: Seq<char>)
    requires
        x.len() % 3 == 0,
    ensures
        spec_b64_encode(x + y) == spec_b64_encode(x) + spec_b64_encode(y),
    decreases x.len(),
{
    if x.len() == 0 {
        assert(x + y =~= y);
        assert(spec_b64_encode(x) + spec_b64_encode(y) =~= spec_b64_encode(y));
    } else {
        assert(x.len() >= 3);
        lemma_b64_encode_append(x.skip(3), y);
        assert((x + y).skip(3) =~= x.skip(3) + y);
        if y.len() == 0 {
            assert(x + y =~= x);
        }
        if x.len() == 3 && y.len() > 0 {
            assert((x + y)[0] == x[0]);
            assert((x + y)[1] == x[1]);
            assert((x + y)[2] == x[2]);
            assert(x.skip(3) =~= Seq::<char>::empty());
            assert(spec_b64_encode(x + y) =~= spec_b64_encode(x) + spec_b64_encode(y));
        } else {
            assert((x + y)[0] == x[0]);
            assert((x + y)[1] == x[1]);
            assert((x + y)[2] == x[2]);
            assert(spec_b64_encode(x + y) =~= spec_b64_encode(x) + spec_b64_encode(y));
        }
    }
}

/// A character's code point is nonnegative, and casting through `u32` keeps it.
pub proof fn lemma_char_nonneg(c: char)
    ensures
        0 <= c as int,
        c as int == (c as u32) as int,
{
    broadcast use vstd::utf8::char_is_scalar;

    assert(vstd::utf8::is_scalar(c as u32));
}

/// Decoding inverts encoding on ASCII input.
pub proof fn lemma_b64_round_trip(s: Seq<char>)
    requires
        forall|i: int| 0 <= i < s.len() ==> ((#[trigger] s[i]) as int) < 256,
    ensures
        spec_b64_decode(spec_b64_encode(s)) == Some(s),
    decreases s.len(),
{
    if s.len() == 0 {
        assert(spec_b64_encode(s) =~= Seq::<char>::empty());
        assert(spec_b64_decode(spec_b64_encode(s)) == Some(Seq::<char>::empty()));
        assert(Seq::<char>::empty() =~= s);
    } else if s.len() == 1 {
        let b0 = s[0] as int;
        lemma_char_nonneg(s[0]);
        lemma_b64_char_val(b0 / 4);
        lemma_b64_char_val((b0 % 4) * 16);
        assert(((b0 % 4) * 16) % 16 == 0);
        assert(b0 / 4 * 4 + ((b0 % 4) * 16) / 16 == b0);
        lemma_char_byte_id(s[0]);
        assert(spec_b64_decode(spec_b64_encode(s)).unwrap() =~= s);
    } else if s.len() == 2 {
        let b0 = s[0] as int;
        let b1 = s[1] as int;
        lemma_char_nonneg(s[0]);
        lemma_char_nonneg(s[1]);
        lemma_b64_char_val(b0 / 4);
        lemma_b64_char_val((b0 % 4) * 16 + b1 / 16);
        lemma_b64_char_val((b1 % 16) * 4);
        assert(((b1 % 16) * 4) % 4 == 0);
        assert(((b0 % 4) * 16 + b1 / 16) / 16 == b0 % 4);
        assert(b0 / 4 * 4 + b0 % 4 == b0);
        assert(((b0 % 4) * 16 + b1 / 16) % 16 == b1 / 16);
        assert(((b1 % 16) * 4) / 4 == b1 % 16);
        assert((b1 / 16) * 16 + b1 % 16 == b1);
        lemma_char_byte_id(s[0]);
        lemma_char_byte_id(s[1]);
        assert(spec_b64_decode(spec_b64_encode(s)).unwrap() =~= s);
    } else {
        let b0 = s[0] as int;
        let b1 = s[1] as int;
        let b2 = s[2] as int;
        lemma_char_nonneg(s[0]);
        lemma_char_nonneg(s[1]);
        lemma_char_nonneg(s[2]);
        lemma_b64_round_trip(s.skip(3));
        let v0 = b0 / 4;
        let v1 = (b0 % 4) * 16 + b1 / 16;
        let v2 = (b1 % 16) * 4 + b2 / 64;
        let v3 = b2 % 64;
        lemma_b64_char_val(v0);
        lemma_b64_char_val(v1);
        lemma_b64_char_val(v2);
        lemma_b64_char_val(v3);
        let g = seq![b64_char(v0), b64_char(v1), b64_char(v2), b64_char(v3)];
        let e = spec_b64_encode(s);
        assert(e == g + spec_b64_encode(s.skip(3)));
        assert(e.len() >= 4);
        assert(e[0] == g[0] && e[1] == g[1] && e[2] == g[2] && e[3] == g[3]);
        assert(e.skip(4) =~= spec_b64_encode(s.skip(3)));
        assert(v1 / 16 == b0 % 4);
        assert(v0 * 4 + v1 / 16 == b0);
        assert(v1 % 16 == b1 / 16);
        assert(v2 / 4 == b1 % 16);
        assert((v1 % 16) * 16 + v2 / 4 == b1);
        assert(v2 % 4 == b2 / 64);
        assert((v2 % 4) * 64 + v3 == b2);
        lemma_char_byte_id(s[0]);
        lemma_char_byte_id(s[1]);
        lemma_char_byte_id(s[2]);
        assert(spec_b64_decode(e).unwrap() =~= s);
    }
}

/// A character below 256 survives the round trip through `u8`.
proof fn lemma_char_byte_id(c: char)
    requires
        (c as int) < 256,
    ensures
        ((c as int) as u8) as char == c,
{
}

/// The character of a six-bit value, computed.
fn b64_char_exec(v: u32) -> (c: char)
    ensures
        c == b64_char(v as int),
{
    if v < 26 {
        (65 + v as u8) as char
    } else if v < 52 {
        (97 + (v as u8 - 26)) as char
    } else if v < 62 {
        (48 + (v as u8 - 52)) as char
    } else if v == 62 {
        '-'
    } else {
        '_'
    }
}

/// The six-bit value of a character, or 64 for one outside the alphabet.
fn b64_val_exec(c: char) -> (v: u32)
    ensures
        b64_val(c) >= 0 ==> v == b64_val(c),
        b64_val(c) < 0 ==> v == 64,
{
    let u = c as u32;
    if 65 <= u && u <= 90 {
        u - 65
    } else if 97 <= u && u <= 122 {
        u - 97 + 26
    } else if 48 <= u && u <= 57 {
        u - 48 + 52
    } else if u == 45 {
        62
    } else if u == 95 {
        63
    } else {
        64
    }
}

/// Appends a character to a string.
///
/// Relies on `String::push` of std: it appends exactly the given character.
#[verifier::external_body]
pub(crate) fn push_char(s: &mut String, c: char)
    ensures
        final(s)@ == old(s)@.push(c),
{
    s.push(c);
}

/// Base64url-encodes ASCII text, each character standing for one byte.
pub fn b64_encode(s: &str) -> (r: String)
    ensures
        r@ == spec_b64_encode(s@),
{
    let n = s.unicode_len();
    let mut out = String::new();
    let mut i: usize = 0;
    while n - i >= 3
        invariant
            i <= n,
            n == s@.len(),
            i % 3 == 0,
            out@ == spec_b64_encode(s@.take(i as int)),
        decreases n - i,
    {
        let v0 = s.get_char(i) as u32;
        let v1 = s.get_char(i + 1) as u32;
        let v2 = s.get_char(i + 2) as u32;
        let c0 = b64_char_exec(v0 / 4);
        let c1 = b64_char_exec((v0 % 4) * 16 + v1 / 16);
        let c2 = b64_char_exec((v1 % 16) * 4 + v2 / 64);
        let c3 = b64_char_exec(v2 % 64);
        push_char(&mut out, c0);
        push_char(&mut out, c1);
        push_char(&mut out, c2);
        push_char(&mut out, c3);
        proof {
            let pre = s@.take(i as int);
            let grp = s@.subrange(i as int, i + 3);
            assert(s@.take(i + 3) =~= pre + grp);
            lemma_b64_encode_append(pre, grp);
            let b0 = grp[0] as int;
            let b1 = grp[1] as int;
            let b2 = grp[2] as int;
            assert(b0 == v0 as int && b1 == v1 as int && b2 == v2 as int);
            assert(c0 == b64_char(b0 / 4));
            assert(c1 == b64_char((b0 % 4) * 16 + b1 / 16));
            assert(c2 == b64_char((b1 % 16) * 4 + b2 / 64));
            assert(c3 == b64_char(b2 % 64));
            assert(grp.skip(3) =~= Seq::<char>::empty());
            assert(spec_b64_encode(Seq::<char>::empty()) =~= Seq::<char>::empty());
            assert(spec_b64_encode(grp) =~= seq![c0, c1, c2, c3]);
            assert(out@ =~= spec_b64_encode(s@.take(i + 3)));
        }
        i = i + 3;
    }
    if n - i == 1 {
        let v0 = s.get_char(i) as u32;
        push_char(&mut out, b64_char_exec(v0 / 4));
        push_char(&mut out, b64_char_exec((v0 % 4) * 16));
        proof {
            let pre = s@.take(i as int);
            let grp = s@.subrange(i as int, i + 1);
            assert(s@ =~= pre + grp);
            lemma_b64_encode_append(pre, grp);
            assert(out@ =~= spec_b64_encode(s@));
        }
    } else if n - i == 2 {
        let v0 = s.get_char(i) as u32;
        let v1 = s.get_char(i + 1) as u32;
        push_char(&mut out, b64_char_exec(v0 / 4));
        push_char(&mut out, b64_char_exec((v0 % 4) * 16 + v1 / 16));
        push_char(&mut out, b64_char_exec((v1 % 16) * 4));
        proof {
            let pre = s@.take(i as int);
            let grp = s@.subrange(i as int, i + 2);
            assert(s@ =~= pre + grp);
            lemma_b64_encode_append(pre, grp);
            assert(out@ =~= spec_b64_encode(s@));
        }
    } else {
        proof {
            assert(s@.take(i as int) =~= s@);
        }
    }
    out
}

/// Decodes base64url text; `None` unless the input is a canonical unpadded
/// encoding. The decoded bytes come back as characters below 256.
pub fn b64_decode(s: &str) -> (r: Option<String>)
    ensures
        match spec_b64_decode(s@) {
            Some(d) => r matches Some(out) && out@ == d,
            None => r is None,
        },
{
    let n = s.unicode_len();
    let mut out = String::new();
    let mut i: usize = 0;
    proof {
        assert(s@.skip(0) =~= s@);
        if spec_b64_decode(s@) is Some {
            assert(Seq::<char>::empty() + spec_b64_decode(s@).unwrap() =~= spec_b64_decode(
                s@,
            ).unwrap());
        }
    }
    while n - i >= 4
        invariant
            i <= n,
            n == s@.len(),
            i % 4 == 0,
            spec_b64_decode(s@) == match spec_b64_decode(s@.skip(i as int)) {
                Some(rest) => Some(out@ + rest),
                None => None::<Seq<char>>,
            },
        decreases n - i,
    {
        let ghost tail = s@.skip(i as int);
        let v0 = b64_val_exec(s.get_char(i));
        let v1 = b64_val_exec(s.get_char(i + 1));
        let v2 = b64_val_exec(s.get_char(i + 2));
        let v3 = b64_val_exec(s.get_char(i + 3));
        proof {
            assert(tail[0] == s@[i as int]);
            assert(tail[1] == s@[i + 1]);
            assert(tail[2] == s@[i + 2]);
            assert(tail[3] == s@[i + 3]);
        }
        if v0 >= 64 || v1 >= 64 || v2 >= 64 || v3 >= 64 {
            proof {
                assert(spec_b64_decode(tail) is None);
            }
            return None;
        }
        push_char(&mut out, ((v0 * 4 + v1 / 16) as u8) as char);
        push_char(&mut out, (((v1 % 16) * 16 + v2 / 4) as u8) as char);
        push_char(&mut out, (((v2 % 4) * 64 + v3) as u8) as char);
        proof {
            assert(tail.skip(4) =~= s@.skip(i + 4));
            let g = seq![
                ((b64_val(tail[0]) * 4 + b64_val(tail[1]) / 16) as u8) as char,
                (((b64_val(tail[1]) % 16) * 16 + b64_val(tail[2]) / 4) as u8) as char,
                (((b64_val(tail[2]) % 4) * 64 + b64_val(tail[3])) as u8) as char,
            ];
            assert(spec_b64_decode(tail) == match spec_b64_decode(s@.skip(i + 4)) {
                Some(rest) => Some(g + rest),
                None => None::<Seq<char>>,
            });
            if spec_b64_decode(s@.skip(i + 4)) is Some {
                let rest = spec_b64_decode(s@.skip(i + 4)).unwrap();
                assert(out@ + (g + rest) =~= (out@ + g) + rest);
            }
        }
        i = i + 4;
    }
    let ghost tail = s@.skip(i as int);
    if n - i == 0 {
        proof {
            assert(tail =~= Seq::<char>::empty());
            assert(out@ + Seq::<char>::empty() =~= out@);
        }
        Some(out)
    } else if n - i == 1 {
        None
    } else if n - i == 2 {
        let v0 = b64_val_exec(s.get_char(i));
        let v1 = b64_val_exec(s.get_char(i + 1));
        proof {
            assert(tail[0] == s@[i as int]);
            assert(tail[1] == s@[i + 1]);
        }
        if v0 >= 64 || v1 >= 64 || v1 % 16 != 0 {
            return None;
        }
        push_char(&mut out, ((v0 * 4 + v1 / 16) as u8) as char);
        proof {
            let g = seq![((b64_val(tail[0]) * 4 + b64_val(tail[1]) / 16) as u8) as char];
            assert(spec_b64_decode(tail) == Some(g));
            assert(spec_b64_decode(s@) matches Some(d) && d =~= out@);
        }
        Some(out)
    } else {
        let v0 = b64_val_exec(s.get_char(i));
        let v1 = b64_val_exec(s.get_char(i + 1));
        let v2 = b64_val_exec(s.get_char(i + 2));
        proof {
            assert(tail[0] == s@[i as int]);
            assert(tail[1] == s@[i + 1]);
            assert(tail[2] == s@[i + 2]);
        }
        if v0 >= 64 || v1 >= 64 || v2 >= 64 || v2 % 4 != 0 {
            return None;
        }
        push_char(&mut out, ((v0 * 4 + v1 / 16) as u8) as char);
        push_char(&mut out, (((v1 % 16) * 16 + v2 / 4) as u8) as char);
        proof {
            let g = seq![
                ((b64_val(tail[0]) * 4 + b64_val(tail[1]) / 16) as u8) as char,
                (((b64_val(tail[1]) % 16) * 16 + b64_val(tail[2]) / 4) as u8) as char,
            ];
            assert(spec_b64_decode(tail) == Some(g));
            assert(spec_b64_decode(s@) matches Some(d) && d =~= out@);
        }
        Some(out)
    }
}

} // verus!
