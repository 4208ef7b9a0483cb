//! The claims payload of a token, as canonical JSON text of the form
//! `{"exp":N,"iat":N,"email":"S"}` with the subject JSON-escaped, an emitter,
//! a parser that accepts exactly the emitted form, and the round-trip proof
//! between them.
use vstd::prelude::*;
use vstd::string::StrSliceExecFns;
use vstd::string::StringExecFns;
use crate::b64::lemma_char_nonneg;
use crate::b64::push_char;
use crate::escape::escape;
use crate::escape::lemma_unescape_escape;
use crate::escape::parse_email_region;
use crate::escape::push_escaped;
use crate::escape::unescape;

verus! {

pub open spec fn is_digit(c: char) -> bool {
    '0' <= c && c <= '9'
}

/// The character of a single decimal digit.
pub open spec fn digit_char(d: int) -> char {
    ((48 + d) as u8) as char
}

/// A digit character carries code 48 + its digit.
pub proof fn lemma_digit_char(d: int)
    requires
        0 <= d < 10,
    ensures
        digit_char(d) as int == 48 + d,
        is_digit(digit_char(d)),
        digit_char(d) != '0' || d == 0,
{
    assert(digit_char(d) as int == 48 + d);
    assert('0' as int == 48 && '9' as int == 57);
}

/// Decimal digits of a number, most significant first, no leading zero.
pub open spec fn digits(n: nat) -> Seq<char>
    decreases n,
{
    if n < 10 {
        seq![digit_char(n as int)]
    } else {
        digits(n / 10) + seq![digit_char((n % 10) as int)]
    }
}

/// Value of a sequence of decimal digit characters.
pub open spec fn digits_val(s: Seq<char>) -> nat
    decreases s.len(),
{
    if s.len() == 0 {
        0
    } else {
        (digits_val(s.take(s.len() - 1)) * 10 + (if is_digit(s[s.len() - 1]) {
            s[s.len() - 1] as int - 48
        } else {
            0
        })) as nat
    }
}

/// How many decimal digit characters the sequence begins with.
pub open spec fn num_digits_prefix(s: Seq<char>) -> int
    decreases s.len(),
{
    if s.len() == 0 || !is_digit(s[0]) {
        0
    } else {
        1 + num_digits_prefix(s.skip(1))
    }
}

/// Nonempty, digits only, and no superfluous leading zero.
pub open spec fn canonical_digits(s: Seq<char>) -> bool {
    &&& s.len() > 0
    &&& forall|i: int| 0 <= i < s.len() ==> is_digit(#[trigger] s[i])
    &&& (s[0] != '0' || s.len() == 1)
}

pub open spec fn starts_with(s: Seq<char>, p: Seq<char>) -> bool {
    p.len() <= s.len() && s.take(p.len() as int) == p
}

/// The canonical claims text; the subject travels JSON-escaped.
pub open spec fn spec_claims_json(email: Seq<char>, exp: nat, iat: nat) -> Seq<char> {
    "{\"exp\":"@ + digits(exp) + ",\"iat\":"@ + digits(iat) + ",\"email\":\""@ + escape(email)
        + "\"}"@
}

/// Parses exactly the canonical claims text; yields subject, expiry, issued-at.
pub open spec fn spec_parse_claims(s: Seq<char>) -> Option<(Seq<char>, nat, nat)> {
    let p1 = "{\"exp\":"@;
    let p2 = ",\"iat\":"@;
    let p3 = ",\"email\":\""@;
    if !starts_with(s, p1) {
        None
    } else {
        let r1 = s.skip(p1.len() as int);
        let d1 = num_digits_prefix(r1);
        if d1 == 0 || !canonical_digits(r1.take(d1)) {
            None
        } else {
            let exp = digits_val(r1.take(d1));
            let r2 = r1.skip(d1);
            if !starts_with(r2, p2) {
                None
            } else {
                let r3 = r2.skip(p2.len() as int);
                let d2 = num_digits_prefix(r3);
                if d2 == 0 || !canonical_digits(r3.take(d2)) {
                    None
                } else {
                    let iat = digits_val(r3.take(d2));
                    let r4 = r3.skip(d2);
                    if !starts_with(r4, p3) {
                        None
                    } else {
                        let r5 = r4.skip(p3.len() as int);
                        if r5.len() < 2 || r5[r5.len() - 2] != '"' || r5[r5.len() - 1] != '}' {
                            None
                        } else {
                            match unescape(r5.take(r5.len() - 2)) {
                                Some(email) => Some((email, exp, iat)),
                                None => None,
                            }
                        }
                    }
                }
            }
        }
    }
}

pub proof fn lemma_digits_props(n: nat)
    ensures
        digits(n).len() >= 1,
        n < 10 ==> digits(n).len() == 1,
        n >= 10 ==> digits(n).len() >= 2,
        canonical_digits(digits(n)),
        digits_val(digits(n)) == n,
    decreases n,
{
    if n < 10 {
        let d = digits(n);
        lemma_digit_char(n as int);
        assert(d.len() == 1);
        assert(d[0] == digit_char(n as int));
        assert(d.take(0) =~= Seq::<char>::empty());
        assert(digits_val(Seq::<char>::empty()) == 0);
        assert(digits_val(d) == (0 * 10 + (d[0] as int - 48)) as nat);
        assert(digits_val(d) == n);
    } else {
        lemma_digits_props(n / 10);
        lemma_digit_char((n % 10) as int);
        let h = digits(n / 10);
        let d = digits(n);
        assert(d == h + seq![digit_char((n % 10) as int)]);
        assert(d.take(d.len() - 1) =~= h);
        assert(d[d.len() - 1] == digit_char((n % 10) as int));
        assert(digits_val(d) == digits_val(h) * 10 + n % 10);
        assert(digits_val(d) == n);
        assert forall|i: int| 0 <= i < d.len() implies is_digit(#[trigger] d[i]) by {
            if i < h.len() {
                assert(d[i] == h[i]);
            } else {
                assert(d[i] == digit_char((n % 10) as int));
            }
        }
        assert(d[0] == h[0]);
        assert(h[0] != '0' || h.len() == 1);
        if h.len() == 1 {
            assert(n / 10 < 10);
            assert(n / 10 >= 1);
            lemma_digit_char((n / 10) as int);
            assert(h[0] == digit_char((n / 10) as int));
            assert('0' as int == 48);
            assert(d[0] != '0');
        }
    }
}

/// The value of a digit string is at least that of any of its prefixes.
pub proof fn lemma_digits_val_prefix_le(s: Seq<char>, k: int)
    requires
        0 <= k <= s.len(),
    ensures
        digits_val(s.take(k)) <= digits_val(s),
    decreases s.len(),
{
    if k == s.len() {
        assert(s.take(k) =~= s);
    } else {
        assert(s.len() > 0);
        lemma_digits_val_prefix_le(s.take(s.len() - 1), k);
        assert(s.take(s.len() - 1).take(k) =~= s.take(k));
        assert(digits_val(s) >= digits_val(s.take(s.len() - 1)) * 10);
    }
}

/// Characterization of `num_digits_prefix` by its bounding characters.
pub proof fn lemma_ndp_is(s: Seq<char>, k: int)
    requires
        0 <= k <= s.len(),
        forall|j: int| 0 <= j < k ==> is_digit(#[trigger] s[j]),
        k == s.len() || !is_digit(s[k]),
    ensures
        num_digits_prefix(s) == k,
    decreases s.len(),
{
    if k == 0 {
    } else {
        assert(is_digit(s[0]));
        lemma_ndp_is(s.skip(1), k - 1);
    }
}

/// Parsing inverts emission: the canonical claims text of any subject
/// parses back to exactly the same triple.
#[verifier::rlimit(100)]
#[verifier::spinoff_prover]
pub proof fn lemma_claims_round_trip(email: Seq<char>, exp: nat, iat: nat)
    ensures
        spec_parse_claims(spec_claims_json(email, exp, iat)) == Some((email, exp, iat)),
{
    reveal_strlit("{\"exp\":");
    reveal_strlit(",\"iat\":");
    reveal_strlit(",\"email\":\"");
    reveal_strlit("\"}");
    let p1 = "{\"exp\":"@;
    let p2 = ",\"iat\":"@;
    let p3 = ",\"email\":\""@;
    let e2 = "\"}"@;
    let s = spec_claims_json(email, exp, iat);
    lemma_digits_props(exp);
    lemma_digits_props(iat);
    lemma_unescape_escape(email);
    let de = digits(exp);
    let di = digits(iat);
    let esc = escape(email);
    assert(s.len() == p1.len() + de.len() + p2.len() + di.len() + p3.len() + esc.len()
        + e2.len());
    assert(s.take(p1.len() as int) =~= p1);
    let r1 = s.skip(p1.len() as int);
    assert(r1 =~= de + (p2 + di + p3 + esc + e2));
    let rest1 = p2 + di + p3 + esc + e2;
    assert(rest1[0] == ',');
    assert(!is_digit(','));
    assert forall|j: int| 0 <= j < de.len() implies is_digit(#[trigger] r1[j]) by {
        assert(r1[j] == de[j]);
    }
    assert(r1[de.len() as int] == rest1[0]);
    lemma_ndp_is(r1, de.len() as int);
    let d1 = num_digits_prefix(r1);
    assert(d1 == de.len());
    assert(r1.take(d1) =~= de);
    assert(canonical_digits(de));
    assert(digits_val(de) == exp);
    let r2 = r1.skip(d1);
    assert(r2 =~= rest1);
    assert(r2.take(p2.len() as int) =~= p2);
    let r3 = r2.skip(p2.len() as int);
    assert(r3 =~= di + (p3 + esc + e2));
    let rest2 = p3 + esc + e2;
    assert(rest2[0] == ',');
    assert forall|j: int| 0 <= j < di.len() implies is_digit(#[trigger] r3[j]) by {
        assert(r3[j] == di[j]);
    }
    assert(r3[di.len() as int] == rest2[0]);
    lemma_ndp_is(r3, di.len() as int);
    let d2 = num_digits_prefix(r3);
    assert(d2 == di.len());
    assert(r3.take(d2) =~= di);
    assert(canonical_digits(di));
    assert(digits_val(di) == iat);
    let r4 = r3.skip(d2);
    assert(r4 =~= rest2);
    assert(r4.take(p3.len() as int) =~= p3);
    let r5 = r4.skip(p3.len() as int);
    assert(r5 =~= esc + e2);
    assert(r5.len() == esc.len() + 2);
    assert(r5[r5.len() - 2] == e2[0]);
    assert(r5[r5.len() - 1] == e2[1]);
    assert(e2[0] == '"' && e2[1] == '}');
    assert(r5.take(r5.len() - 2) =~= esc);
    assert(unescape(esc) == Some(email));
}

fn is_digit_exec(c: char) -> (b: bool)
    ensures
        b == is_digit(c),
{
    let u = c as u32;
    48 <= u && u <= 57
}

/// Appends the decimal digits of a number to a string.
fn push_digits(out: &mut String, n: usize)
    ensures
        final(out)@ == old(out)@ + digits(n as nat),
    decreases n,
{
    if n < 10 {
        push_char(out, (48 + n as u8) as char);
        proof {
            assert(old(out)@.push(digit_char(n as int)) =~= old(out)@ + digits(n as nat));
        }
    } else {
        push_digits(out, n / 10);
        push_char(out, (48 + (n % 10) as u8) as char);
        proof {
            assert((old(out)@ + digits((n / 10) as nat)).push(digit_char((n % 10) as int)) =~= old(
                out,
            )@ + digits(n as nat));
        }
    }
}

/// Emits the canonical claims text for a subject and its two timestamps.
pub fn claims_json(email: &str, exp: usize, iat: usize) -> (r: String)
    ensures
        r@ == spec_claims_json(email@, exp as nat, iat as nat),
{
    let mut out = String::from_str("{\"exp\":");
    push_digits(&mut out, exp);
    out.append(",\"iat\":");
    push_digits(&mut out, iat);
    out.append(",\"email\":\"");
    push_escaped(&mut out, email);
    out.append("\"}");
    proof {
        assert(out@ =~= spec_claims_json(email@, exp as nat, iat as nat));
    }
    out
}

/// Whether the text at `pos` begins with the given literal.
pub(crate) fn lit_at(s: &str, pos: usize, lit: &str) -> (b: bool)
    requires
        pos <= s@.len(),
    ensures
        b == starts_with(s@.skip(pos as int), lit@),
{
    let n = s.unicode_len();
    let m = lit.unicode_len();
    if n - pos < m {
        return false;
    }
    let mut j: usize = 0;
    while j < m
        invariant
            j <= m,
            m == lit@.len(),
            pos + m <= n,
            n == s@.len(),
            forall|k: int| 0 <= k < j ==> s@[pos + k] == lit@[k],
        decreases m - j,
    {
        if s.get_char(pos + j) != lit.get_char(j) {
            proof {
                let tail = s@.skip(pos as int);
                assert(tail[j as int] == s@[pos + j]);
                if starts_with(tail, lit@) {
                    assert(tail.take(m as int)[j as int] == tail[j as int]);
                }
            }
            return false;
        }
        j = j + 1;
    }
    proof {
        let tail = s@.skip(pos as int);
        assert(tail.take(m as int) =~= lit@);
    }
    true
}

/// Counts the decimal digits at `pos`.
fn scan_digits(s: &str, pos: usize) -> (cnt: usize)
    requires
        pos <= s@.len(),
    ensures
        cnt == num_digits_prefix(s@.skip(pos as int)),
        pos + cnt <= s@.len(),
        forall|k: int| pos <= k < pos + cnt ==> is_digit(#[trigger] s@[k]),
    decreases s@.len() - pos,
{
    let n = s.unicode_len();
    let mut j: usize = pos;
    while j < n && is_digit_exec(s.get_char(j))
        invariant
            pos <= j <= n,
            n == s@.len(),
            forall|k: int| pos <= k < j ==> is_digit(#[trigger] s@[k]),
        decreases n - j,
    {
        j = j + 1;
    }
    proof {
        let tail = s@.skip(pos as int);
        assert forall|jj: int| 0 <= jj < j - pos implies is_digit(#[trigger] tail[jj]) by {
            assert(tail[jj] == s@[pos + jj]);
        }
        if (j as int) - (pos as int) < tail.len() {
            assert(tail[j - pos] == s@[j as int]);
        }
        lemma_ndp_is(tail, j as int - pos as int);
    }
    j - pos
}

/// Reads the value of `cnt` digits at `pos`; `None` when it exceeds `usize`.
fn digits_value(s: &str, pos: usize, cnt: usize) -> (r: Option<usize>)
    requires
        pos + cnt <= s@.len(),
        pos + cnt <= usize::MAX,
        forall|k: int| pos <= k < pos + cnt ==> is_digit(#[trigger] s@[k]),
    ensures
        match r {
            Some(v) => v as nat == digits_val(s@.subrange(pos as int, pos + cnt)),
            None => digits_val(s@.subrange(pos as int, pos + cnt)) > usize::MAX,
        },
{
    let mut acc: usize = 0;
    let mut j: usize = 0;
    while j < cnt
        invariant
            j <= cnt,
            pos + cnt <= s@.len(),
            pos + cnt <= usize::MAX,
            forall|k: int| pos <= k < pos + cnt ==> is_digit(#[trigger] s@[k]),
            acc as nat == digits_val(s@.subrange(pos as int, pos + j)),
        decreases cnt - j,
    {
        let c = s.get_char(pos + j);
        proof {
            lemma_char_nonneg(c);
            assert(is_digit(c));
        }
        let d = (c as u32 - 48) as usize;
        if acc > (usize::MAX - d) / 10 {
            proof {
                let full = s@.subrange(pos as int, pos + cnt);
                let part = s@.subrange(pos as int, pos + j + 1);
                assert(part.take(j as int) =~= s@.subrange(pos as int, pos + j));
                assert(part[j as int] == c);
                assert(digits_val(part) == acc * 10 + d);
                assert(acc * 10 + d > usize::MAX) by {
                    assert(acc >= (usize::MAX - d) / 10 + 1);
                    assert(((usize::MAX - d) / 10) * 10 + (usize::MAX - d) % 10 == usize::MAX
                        - d);
                }
                lemma_digits_val_prefix_le(full, j + 1);
                assert(full.take(j + 1) =~= part);
            }
            return None;
        }
        proof {
            assert(acc * 10 + d <= usize::MAX) by {
                assert(acc <= (usize::MAX - d) / 10);
                assert(((usize::MAX - d) / 10) * 10 + (usize::MAX - d) % 10 == usize::MAX - d);
            }
        }
        acc = acc * 10 + d;
        proof {
            let part = s@.subrange(pos as int, pos + j + 1);
            assert(part.take(j as int) =~= s@.subrange(pos as int, pos + j));
            assert(part[j as int] == c);
            assert(acc as nat == digits_val(part));
        }
        j = j + 1;
    }
    proof {
        assert(s@.subrange(pos as int, pos + cnt) =~= s@.subrange(pos as int, pos + j));
    }
    Some(acc)
}

/// Parses the canonical claims text; the subject comes back as a `String`,
/// the timestamps as `usize` values, and any text the emitter could not have
/// produced — or whose numbers do not fit — yields `None`.
#[verifier::rlimit(100)]
#[verifier::spinoff_prover]
pub fn parse_claims(s: &str) -> (r: Option<(String, usize, usize)>)
    ensures
        match spec_parse_claims(s@) {
            Some(t) => if t.1 <= usize::MAX && t.2 <= usize::MAX {
                r matches Some(v) && v.0@ == t.0 && v.1 as nat == t.1 && v.2 as nat == t.2
            } else {
                r is None
            },
            None => r is None,
        },
{
    let n = s.unicode_len();
    let l1 = "{\"exp\":";
    let l2 = ",\"iat\":";
    let l3 = ",\"email\":\"";
    proof {
        assert(s@.skip(0) =~= s@);
    }
    if !lit_at(s, 0, l1) {
        return None;
    }
    let mut pos: usize = l1.unicode_len();
    proof {
        assert(s@.skip(0).take(pos as int) =~= s@.take(pos as int));
        assert(s@.skip(0).skip(pos as int) =~= s@.skip(pos as int));
    }
    let ghost gr1 = s@.skip(l1@.len() as int);
    let cnt1 = scan_digits(s, pos);
    proof {
        assert(gr1 == s@.skip(pos as int));
    }
    if cnt1 == 0 {
        return None;
    }
    // A leading zero in a multi-digit number is not canonical.
    if cnt1 > 1 && s.get_char(pos) == '0' {
        proof {
            assert(gr1.take(cnt1 as int)[0] == s@[pos as int]);
            assert(!canonical_digits(gr1.take(cnt1 as int)));
        }
        return None;
    }
    proof {
        let t = gr1.take(cnt1 as int);
        assert(t.len() == cnt1);
        assert forall|i: int| 0 <= i < t.len() implies is_digit(#[trigger] t[i]) by {
            assert(t[i] == s@[pos + i]);
        }
        assert(t[0] == s@[pos as int]);
        assert(canonical_digits(t));
        assert(t =~= s@.subrange(pos as int, pos + cnt1));
    }
    let exp = match digits_value(s, pos, cnt1) {
        Some(v) => v,
        None => {
            return None;
        },
    };
    pos = pos + cnt1;
    proof {
        assert(gr1.skip(cnt1 as int) =~= s@.skip(pos as int));
    }
    if !lit_at(s, pos, l2) {
        return None;
    }
    let ghost gr3 = gr1.skip(cnt1 as int).skip(l2@.len() as int);
    pos = pos + l2.unicode_len();
    proof {
        assert(gr3 =~= s@.skip(pos as int));
    }
    let cnt2 = scan_digits(s, pos);
    if cnt2 == 0 {
        return None;
    }
    if cnt2 > 1 && s.get_char(pos) == '0' {
        proof {
            assert(gr3.take(cnt2 as int)[0] == s@[pos as int]);
            assert(!canonical_digits(gr3.take(cnt2 as int)));
        }
        return None;
    }
    proof {
        let t = gr3.take(cnt2 as int);
        assert(t.len() == cnt2);
        assert forall|i: int| 0 <= i < t.len() implies is_digit(#[trigger] t[i]) by {
            assert(t[i] == s@[pos + i]);
        }
        assert(t[0] == s@[pos as int]);
        assert(canonical_digits(t));
        assert(t =~= s@.subrange(pos as int, pos + cnt2));
    }
    let iat = match digits_value(s, pos, cnt2) {
        Some(v) => v,
        None => {
            return None;
        },
    };
    pos = pos + cnt2;
    proof {
        assert(gr3.skip(cnt2 as int) =~= s@.skip(pos as int));
    }
    if !lit_at(s, pos, l3) {
        return None;
    }
    let ghost gr5 = gr3.skip(cnt2 as int).skip(l3@.len() as int);
    pos = pos + l3.unicode_len();
    proof {
        assert(gr5 =~= s@.skip(pos as int));
    }
    if n - pos < 2 {
        return None;
    }
    if !(s.get_char(n - 2) == '"' && s.get_char(n - 1) == '}') {
        proof {
            assert(gr5[gr5.len() - 2] == s@[n - 2]);
            assert(gr5[gr5.len() - 1] == s@[n - 1]);
        }
        return None;
    }
    proof {
        assert(gr5[gr5.len() - 2] == s@[n - 2]);
        assert(gr5[gr5.len() - 1] == s@[n - 1]);
        assert(gr5.take(gr5.len() - 2) =~= s@.subrange(pos as int, n - 2));
    }
    let email = match parse_email_region(s, pos, n - 2) {
        Some(e) => e,
        None => {
            return None;
        },
    };
    Some((email, exp, iat))
}

} // verus!
