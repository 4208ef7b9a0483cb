//! JSON string escaping for the subject carried inside the claims text.
//! Printable ASCII travels raw; the quote and the backslash get their short
//! escapes; everything else becomes `\uXXXX`, with a surrogate pair for
//! characters beyond the basic plane — so the escaped text is pure ASCII,
//! any subject can be carried, and unescaping is proved to invert escaping.
use vstd::prelude::*;
use vstd::string::StrSliceExecFns;
use crate::b64::lemma_char_nonneg;
use crate::b64::push_char;

verus! {

/// A character the claims text carries raw: printable ASCII except the
/// quote (code 34) and the backslash (code 92).
pub open spec fn raw_char_ok(c: char) -> bool {
    32 <= c as int && (c as int) < 127 && c as int != 34 && c as int != 92
}

/// Lowercase hexadecimal digit character of a four-bit value.
pub open spec fn hex_char(d: int) -> char {
    if d < 10 {
        ((48 + d) as u8) as char
    } else {
        ((87 + d) as u8) as char
    }
}

/// Value of a lowercase hexadecimal digit character; -1 for any other.
pub open spec fn hex_val(c: char) -> int {
    if '0' <= c && c <= '9' {
        c as int - 48
    } else if 'a' <= c && c <= 'f' {
        c as int - 87
    } else {
        -1
    }
}

pub proof fn lemma_hex_char_val(d: int)
    requires
        0 <= d < 16,
    ensures
        hex_val(hex_char(d)) == d,
        (hex_char(d) as int) < 128,
{
}

/// Four lowercase hexadecimal digits of a value below 2^16.
pub open spec fn hex4_of(v: int) -> Seq<char> {
    seq![
        hex_char(v / 4096),
        hex_char(v / 256 % 16),
        hex_char(v / 16 % 16),
        hex_char(v % 16),
    ]
}

/// Value of four hexadecimal digit characters; -1 when one is not a digit.
pub open spec fn hex4(s: Seq<char>) -> int {
    if s.len() < 4 {
        -1
    } else {
        let a = hex_val(s[0]);
        let b = hex_val(s[1]);
        let c = hex_val(s[2]);
        let d = hex_val(s[3]);
        if a < 0 || b < 0 || c < 0 || d < 0 {
            -1
        } else {
            a * 4096 + b * 256 + c * 16 + d
        }
    }
}

pub proof fn lemma_hex4_of_val(v: int)
    requires
        0 <= v < 0x10000,
    ensures
        hex4(hex4_of(v)) == v,
        forall|i: int| 0 <= i < 4 ==> ((#[trigger] hex4_of(v)[i]) as int) < 128,
{
    vstd::arithmetic::div_mod::lemma_div_denominator(v, 16, 16);
    vstd::arithmetic::div_mod::lemma_div_denominator(v, 256, 16);
    lemma_hex_char_val(v / 4096);
    lemma_hex_char_val(v / 256 % 16);
    lemma_hex_char_val(v / 16 % 16);
    lemma_hex_char_val(v % 16);
    assert(v / 256 / 16 == v / 4096);
    assert(v / 16 / 16 == v / 256);
    assert(v / 256 == v / 4096 * 16 + v / 256 % 16);
    assert(v / 16 == v / 256 * 16 + v / 16 % 16);
    assert(v == v / 16 * 16 + v % 16);
    assert(v / 4096 < 16);
}

/// The character of a code point, through `u32`.
pub open spec fn code_char(v: int) -> char {
    (v as u32) as char
}

/// What is true of every character's code: nonnegative, at most 0x10FFFF,
/// never a surrogate, and recovered by `code_char`.
pub proof fn lemma_char_code(c: char)
    ensures
        0 <= c as int <= 0x10FFFF,
        !(0xD800 <= c as int && (c as int) < 0xE000),
        code_char(c as int) == c,
        c as int == (c as u32) as int,
{
    broadcast use vstd::utf8::char_is_scalar;
    broadcast use vstd::utf8::char_u32_cast;

    lemma_char_nonneg(c);
    assert(vstd::utf8::is_scalar(c as u32));
    assert(((c as int) as u32) == c as u32);
}

/// The escape of one character.
pub open spec fn esc_char(c: char) -> Seq<char> {
    if raw_char_ok(c) {
        seq![c]
    } else if c == '"' {
        seq!['\\', '"']
    } else if c == '\\' {
        seq!['\\', '\\']
    } else if (c as int) < 0x10000 {
        seq!['\\', 'u'] + hex4_of(c as int)
    } else {
        seq!['\\', 'u'] + hex4_of(0xD800 + (c as int - 0x10000) / 0x400) + seq!['\\', 'u']
            + hex4_of(0xDC00 + (c as int - 0x10000) % 0x400)
    }
}

/// The escape of a text, character by character.
pub open spec fn escape(e: Seq<char>) -> Seq<char>
    decreases e.len(),
{
    if e.len() == 0 {
        Seq::<char>::empty()
    } else {
        esc_char(e[0]) + escape(e.skip(1))
    }
}

pub open spec fn opt_cons(c: char, r: Option<Seq<char>>) -> Option<Seq<char>> {
    match r {
        Some(t) => Some(seq![c] + t),
        None => None,
    }
}

/// Inverts `escape`, accepting exactly what it emits: raw printable ASCII,
/// the two short escapes, and `\uXXXX` only for a character that has no
/// shorter form — a high surrogate must be followed by a low one, and a
/// lone low surrogate, an uppercase digit or a needless escape all fail.
pub open spec fn unescape(s: Seq<char>) -> Option<Seq<char>>
    decreases s.len(),
{
    if s.len() == 0 {
        Some(Seq::<char>::empty())
    } else if s[0] != '\\' {
        if raw_char_ok(s[0]) {
            opt_cons(s[0], unescape(s.skip(1)))
        } else {
            None
        }
    } else if s.len() < 2 {
        None
    } else if s[1] == '"' {
        opt_cons('"', unescape(s.skip(2)))
    } else if s[1] == '\\' {
        opt_cons('\\', unescape(s.skip(2)))
    } else if s[1] == 'u' {
        if s.len() < 6 {
            None
        } else {
            let v = hex4(s.subrange(2, 6));
            if v < 0 {
                None
            } else if 0xD800 <= v && v < 0xDC00 {
                if s.len() < 12 || s[6] != '\\' || s[7] != 'u' {
                    None
                } else {
                    let w = hex4(s.subrange(8, 12));
                    if !(0xDC00 <= w && w < 0xE000) {
                        None
                    } else {
                        opt_cons(
                            code_char(0x10000 + (v - 0xD800) * 0x400 + (w - 0xDC00)),
                            unescape(s.skip(12)),
                        )
                    }
                }
            } else if 0xDC00 <= v && v < 0xE000 {
                None
            } else if !(32 <= v && v < 127) {
                opt_cons(code_char(v), unescape(s.skip(6)))
            } else {
                None
            }
        }
    } else {
        None
    }
}

/// Every character of an escaped text is ASCII.
pub proof fn lemma_escape_ascii(e: Seq<char>)
    ensures
        forall|i: int| 0 <= i < escape(e).len() ==> ((#[trigger] escape(e)[i]) as int) < 128,
    decreases e.len(),
{
    if e.len() > 0 {
        let c = e[0];
        lemma_escape_ascii(e.skip(1));
        lemma_char_code(c);
        if !raw_char_ok(c) && c != '"' && c != '\\' {
            if (c as int) < 0x10000 {
                lemma_hex4_of_val(c as int);
            } else {
                lemma_hex4_of_val(0xD800 + (c as int - 0x10000) / 0x400);
                lemma_hex4_of_val(0xDC00 + (c as int - 0x10000) % 0x400);
            }
        }
        assert forall|i: int| 0 <= i < escape(e).len() implies ((#[trigger] escape(e)[i]) as int)
            < 128 by {
            if i >= esc_char(c).len() {
                assert(escape(e)[i] == escape(e.skip(1))[i - esc_char(c).len()]);
            } else {
                assert(escape(e)[i] == esc_char(c)[i]);
            }
        }
    }
}

/// Escaping distributes over appending one character at the back.
pub proof fn lemma_escape_snoc(x: Seq<char>, c: char)
    ensures
        escape(x.push(c)) == escape(x) + esc_char(c),
    decreases x.len(),
{
    if x.len() == 0 {
        assert(x.push(c)[0] == c);
        assert(x.push(c).skip(1) =~= Seq::<char>::empty());
        assert(escape(Seq::<char>::empty()) =~= Seq::<char>::empty());
        assert(escape(x.push(c)) =~= esc_char(c));
        assert(escape(x) + esc_char(c) =~= esc_char(c));
    } else {
        lemma_escape_snoc(x.skip(1), c);
        assert(x.push(c)[0] == x[0]);
        assert(x.push(c).skip(1) =~= x.skip(1).push(c));
        assert(escape(x.push(c)) =~= escape(x) + esc_char(c));
    }
}

/// One step of the inversion: unescaping consumes exactly the escape of
/// one character and yields that character back.
#[verifier::rlimit(100)]
#[verifier::spinoff_prover]
proof fn lemma_unescape_esc_char(c: char, rest: Seq<char>)
    ensures
        unescape(esc_char(c) + rest) == opt_cons(c, unescape(rest)),
{
    broadcast use vstd::utf8::char_u32_cast;

    lemma_char_code(c);
    let cv = c as int;
    let ec = esc_char(c);
    let s = ec + rest;
    if raw_char_ok(c) {
        assert(s[0] == c);
        assert(c != '\\');
        assert(s.skip(1) =~= rest);
    } else if c == '"' {
        assert(s[0] == '\\' && s[1] == '"');
        assert(s.skip(2) =~= rest);
    } else if c == '\\' {
        assert(s[0] == '\\' && s[1] == '\\');
        assert(s.skip(2) =~= rest);
    } else if cv < 0x10000 {
        lemma_hex4_of_val(cv);
        assert(s[0] == '\\' && s[1] == 'u');
        assert(s[1] != '"' && s[1] != '\\') by {
            assert('u' as int == 117 && '"' as int == 34 && '\\' as int == 92);
        }
        assert(s.len() >= 6);
        assert(s.subrange(2, 6) =~= hex4_of(cv));
        assert(hex4(s.subrange(2, 6)) == cv);
        assert(!(0xD800 <= cv && cv < 0xE000));
        assert(!(32 <= cv && cv < 127)) by {
            assert(cv != 34 && cv != 92);
        }
        assert(code_char(cv) == c);
        assert(s.skip(6) =~= rest);
    } else {
        let voff = cv - 0x10000;
        let hi = 0xD800 + voff / 0x400;
        let lo = 0xDC00 + voff % 0x400;
        lemma_hex4_of_val(hi);
        lemma_hex4_of_val(lo);
        assert(ec.len() == 12);
        assert(s[0] == '\\' && s[1] == 'u');
        assert(s[1] != '"' && s[1] != '\\') by {
            assert('u' as int == 117 && '"' as int == 34 && '\\' as int == 92);
        }
        assert(s.len() >= 12);
        assert(s.subrange(2, 6) =~= hex4_of(hi));
        assert(s[6] == '\\' && s[7] == 'u');
        assert(s.subrange(8, 12) =~= hex4_of(lo));
        assert(0xD800 <= hi && hi < 0xDC00) by {
            assert(voff < 0x100000);
            assert(voff / 0x400 < 0x400);
        }
        assert(0xDC00 <= lo && lo < 0xE000);
        assert(0x10000 + (hi - 0xD800) * 0x400 + (lo - 0xDC00) == cv) by {
            assert(voff / 0x400 * 0x400 + voff % 0x400 == voff);
        }
        assert(code_char(cv) == c);
        assert(s.skip(12) =~= rest);
    }
}

/// Unescaping inverts escaping, for every text.
pub proof fn lemma_unescape_escape(e: Seq<char>)
    ensures
        unescape(escape(e)) == Some(e),
    decreases e.len(),
{
    if e.len() == 0 {
        assert(escape(e) =~= Seq::<char>::empty());
        assert(Seq::<char>::empty() =~= e);
    } else {
        lemma_unescape_escape(e.skip(1));
        lemma_unescape_esc_char(e[0], escape(e.skip(1)));
        assert(seq![e[0]] + e.skip(1) =~= e);
    }
}

fn hex_char_exec(d: u32) -> (c: char)
    requires
        d < 16,
    ensures
        c == hex_char(d as int),
{
    if d < 10 {
        (48 + d as u8) as char
    } else {
        (87 + d as u8) as char
    }
}

/// Value of a lowercase hexadecimal digit character, or 16 for any other.
fn hex_val_exec(c: char) -> (v: u32)
    ensures
        hex_val(c) >= 0 ==> v == hex_val(c),
        hex_val(c) < 0 ==> v == 16,
{
    let u = c as u32;
    if 48 <= u && u <= 57 {
        u - 48
    } else if 97 <= u && u <= 102 {
        u - 97 + 10
    } else {
        16
    }
}

fn push_hex4(out: &mut String, v: u32)
    requires
        v < 0x10000,
    ensures
        final(out)@ == old(out)@ + hex4_of(v as int),
{
    push_char(out, hex_char_exec(v / 4096));
    push_char(out, hex_char_exec(v / 256 % 16));
    push_char(out, hex_char_exec(v / 16 % 16));
    push_char(out, hex_char_exec(v % 16));
    proof {
        assert(out@ =~= old(out)@ + hex4_of(v as int));
    }
}

/// Appends the escape of a text to a string.
pub fn push_escaped(out: &mut String, text: &str)
    ensures
        final(out)@ == old(out)@ + escape(text@),
{
    let n = text.unicode_len();
    let mut i: usize = 0;
    proof {
        assert(text@.take(0) =~= Seq::<char>::empty());
        assert(old(out)@ + escape(Seq::<char>::empty()) =~= old(out)@);
    }
    while i < n
        invariant
            i <= n,
            n == text@.len(),
            out@ == old(out)@ + escape(text@.take(i as int)),
        decreases n - i,
    {
        let c = text.get_char(i);
        let v = c as u32;
        proof {
            lemma_char_code(c);
        }
        if 32 <= v && v < 127 && v != 34 && v != 92 {
            push_char(&mut *out, c);
            proof {
                assert(esc_char(c) =~= seq![c]);
            }
        } else if v == 34 {
            push_char(&mut *out, '\\');
            push_char(&mut *out, '"');
            proof {
                assert(c == '"');
            }
        } else if v == 92 {
            push_char(&mut *out, '\\');
            push_char(&mut *out, '\\');
            proof {
                assert(c == '\\');
            }
        } else if v < 0x10000 {
            push_char(&mut *out, '\\');
            push_char(&mut *out, 'u');
            push_hex4(&mut *out, v);
            proof {
                assert(esc_char(c) =~= seq!['\\', 'u'] + hex4_of(c as int));
            }
        } else {
            let voff = v - 0x10000;
            push_char(&mut *out, '\\');
            push_char(&mut *out, 'u');
            push_hex4(&mut *out, 0xD800 + voff / 0x400);
            push_char(&mut *out, '\\');
            push_char(&mut *out, 'u');
            push_hex4(&mut *out, 0xDC00 + voff % 0x400);
            proof {
                assert(voff / 0x400 < 0x400);
                assert(esc_char(c) =~= seq!['\\', 'u'] + hex4_of(0xD800 + (c as int - 0x10000)
                    / 0x400) + seq!['\\', 'u'] + hex4_of(0xDC00 + (c as int - 0x10000) % 0x400));
            }
        }
        proof {
            lemma_escape_snoc(text@.take(i as int), c);
            assert(text@.take(i + 1) =~= text@.take(i as int).push(c));
            assert(out@ =~= old(out)@ + escape(text@.take(i + 1)));
        }
        i = i + 1;
    }
    proof {
        assert(text@.take(n as int) =~= text@);
    }
}

/// The character of a code point.
///
/// Relies on `char::from_u32` of std: for a valid Unicode scalar value it
/// returns the character with exactly that code, and `None` for surrogates
/// and values above 0x10FFFF.
#[verifier::external_body]
fn char_from_u32(v: u32) -> (r: Option<char>)
    ensures
        r matches Some(c) ==> c == (v as char) && c as u32 == v,
        vstd::utf8::is_scalar(v) ==> r is Some,
{
    char::from_u32(v)
}

/// Reads four hexadecimal digit characters at `at`.
fn read_hex4(s: &str, at: usize) -> (r: Option<u32>)
    requires
        at + 4 <= s@.len(),
        s@.len() <= usize::MAX,
    ensures
        hex4(s@.subrange(at as int, at + 4)) >= 0 ==> r == Some(
            hex4(s@.subrange(at as int, at + 4)) as u32,
        ),
        hex4(s@.subrange(at as int, at + 4)) < 0 ==> r is None,
{
    let a = hex_val_exec(s.get_char(at));
    let b = hex_val_exec(s.get_char(at + 1));
    let c = hex_val_exec(s.get_char(at + 2));
    let d = hex_val_exec(s.get_char(at + 3));
    proof {
        let g = s@.subrange(at as int, at + 4);
        assert(g[0] == s@[at as int] && g[1] == s@[at + 1] && g[2] == s@[at + 2] && g[3] == s@[at
            + 3]);
    }
    if a >= 16 || b >= 16 || c >= 16 || d >= 16 {
        return None;
    }
    Some(a * 4096 + b * 256 + c * 16 + d)
}

/// Unescapes the region `[pos, end)` of the text, exactly as `unescape`.
#[verifier::rlimit(100)]
#[verifier::spinoff_prover]
pub fn parse_email_region(s: &str, pos: usize, end: usize) -> (r: Option<String>)
    requires
        pos <= end <= s@.len(),
        s@.len() <= usize::MAX,
    ensures
        match unescape(s@.subrange(pos as int, end as int)) {
            Some(t) => r matches Some(out) && out@ == t,
            None => r is None,
        },
{
    let ghost region = s@.subrange(pos as int, end as int);
    let mut email = String::new();
    let mut j: usize = pos;
    proof {
        if unescape(region) is Some {
            assert(Seq::<char>::empty() + unescape(region).unwrap() =~= unescape(
                region,
            ).unwrap());
        }
    }
    while j < end
        invariant
            pos <= j <= end,
            end <= s@.len() <= usize::MAX,
            region == s@.subrange(pos as int, end as int),
            unescape(region) == match unescape(s@.subrange(j as int, end as int)) {
                Some(t) => Some(email@ + t),
                None => None::<Seq<char>>,
            },
        decreases end - j,
    {
        let ghost tail = s@.subrange(j as int, end as int);
        let ghost email0 = email@;
        let c = s.get_char(j);
        proof {
            assert(tail[0] == s@[j as int]);
        }
        let ch: char;
        let adv: usize;
        if c != '\\' {
            let v = c as u32;
            proof {
                lemma_char_code(c);
            }
            if !(32 <= v && v < 127 && v != 34 && v != 92) {
                return None;
            }
            ch = c;
            adv = 1;
        } else if end - j < 2 {
            return None;
        } else {
            let c1 = s.get_char(j + 1);
            proof {
                assert(tail[1] == s@[j + 1]);
            }
            if c1 == '"' {
                ch = '"';
                adv = 2;
            } else if c1 == '\\' {
                ch = '\\';
                adv = 2;
            } else if c1 != 'u' {
                return None;
            } else if end - j < 6 {
                return None;
            } else {
                proof {
                    assert(tail.subrange(2, 6) =~= s@.subrange(j + 2, j + 6));
                }
                let v = match read_hex4(s, j + 2) {
                    Some(v) => v,
                    None => {
                        return None;
                    },
                };
                if 0xD800 <= v && v < 0xDC00 {
                    if end - j < 12 {
                        return None;
                    }
                    proof {
                        assert(tail[6] == s@[j + 6] && tail[7] == s@[j + 7]);
                    }
                    if !(s.get_char(j + 6) == '\\' && s.get_char(j + 7) == 'u') {
                        return None;
                    }
                    proof {
                        assert(tail.subrange(8, 12) =~= s@.subrange(j + 8, j + 12));
                    }
                    let w = match read_hex4(s, j + 8) {
                        Some(w) => w,
                        None => {
                            return None;
                        },
                    };
                    if !(0xDC00 <= w && w < 0xE000) {
                        return None;
                    }
                    let code = 0x10000 + (v - 0xD800) * 0x400 + (w - 0xDC00);
                    ch = char_from_u32(code).unwrap();
                    proof {
                        assert(vstd::utf8::is_scalar(code));
                        assert(ch == code_char(code as int));
                    }
                    adv = 12;
                } else if 0xDC00 <= v && v < 0xE000 {
                    return None;
                } else if 32 <= v && v < 127 {
                    return None;
                } else {
                    ch = char_from_u32(v).unwrap();
                    proof {
                        assert(vstd::utf8::is_scalar(v));
                        assert(ch == code_char(v as int));
                    }
                    adv = 6;
                }
            }
        }
        push_char(&mut email, ch);
        j = j + adv;
        proof {
            let tail2 = s@.subrange(j as int, end as int);
            assert(tail.skip(adv as int) =~= tail2);
            assert(unescape(tail) == opt_cons(ch, unescape(tail2)));
            if unescape(tail2) is Some {
                let t = unescape(tail2).unwrap();
                assert(email0 + (seq![ch] + t) =~= email@ + t);
            }
        }
    }
    proof {
        assert(s@.subrange(j as int, end as int) =~= Seq::<char>::empty());
        assert(email@ + Seq::<char>::empty() =~= email@);
    }
    Some(email)
}

} // verus!
