//! Base-64 over whole groups: three bytes to four characters and back,
//! with the URL-safe alphabet `A-Z a-z 0-9 - _`.
use vstd::prelude::*;

verus! {

/// The character (as a byte) of the digit `v`, for `v < 64`.
pub open spec fn b64_char(v: u8) -> u8 {
    if v < 26 {
        (v + 65) as u8
    } else if v < 52 {
        (v + 71) as u8
    } else if v < 62 {
        (v - 4) as u8
    } else if v == 62 {
        45
    } else {
        95
    }
}

/// The digit that the character `c` stands for, if it is in the alphabet.
pub open spec fn b64_value(c: u8) -> Option<u8> {
    if 65 <= c <= 90 {
        Some((c - 65) as u8)
    } else if 97 <= c <= 122 {
        Some((c - 71) as u8)
    } else if 48 <= c <= 57 {
        Some((c + 4) as u8)
    } else if c == 45 {
        Some(62u8)
    } else if c == 95 {
        Some(63u8)
    } else {
        None
    }
}

/// The digit of `c`, with zero for a character outside the alphabet.
pub open spec fn digit_of(c: u8) -> u8 {
    match b64_value(c) {
        Some(v) => v,
        None => 0,
    }
}

/// Every character of `t` is in the alphabet.
pub open spec fn is_b64(t: Seq<u8>) -> bool {
    forall|i: int| 0 <= i < t.len() ==> (#[trigger] b64_value(t[i])).is_some()
}

/// Digit `i` (of four) of the group of bytes `b0 b1 b2`.
pub open spec fn sextet(b0: u8, b1: u8, b2: u8, i: int) -> u8 {
    if i == 0 {
        (b0 / 4) as u8
    } else if i == 1 {
        ((b0 % 4) * 16 + b1 / 16) as u8
    } else if i == 2 {
        ((b1 % 16) * 4 + b2 / 64) as u8
    } else {
        (b2 % 64) as u8
    }
}

/// Byte `i` (of three) of the group of digits `s0 s1 s2 s3`.
pub open spec fn group_byte(s0: u8, s1: u8, s2: u8, s3: u8, i: int) -> u8 {
    if i == 0 {
        (s0 * 4 + s1 / 16) as u8
    } else if i == 1 {
        ((s1 % 16) * 16 + s2 / 4) as u8
    } else {
        ((s2 % 4) * 64 + s3) as u8
    }
}

/// Character `j` of the text of `b`.
pub open spec fn enc_at(b: Seq<u8>, j: int) -> u8 {
    let g = 3 * (j / 4);
    b64_char(sextet(b[g], b[g + 1], b[g + 2], j % 4))
}

/// The text of the whole groups of `b`: four characters for each three bytes.
#[verifier::opaque]
pub open spec fn enc(b: Seq<u8>) -> Seq<u8> {
    Seq::new((b.len() / 3 * 4) as nat, |j: int| enc_at(b, j))
}

/// Byte `k` of the bytes of the text `t`.
pub open spec fn dec_at(t: Seq<u8>, k: int) -> u8 {
    let g = 4 * (k / 3);
    group_byte(digit_of(t[g]), digit_of(t[g + 1]), digit_of(t[g + 2]), digit_of(t[g + 3]), k % 3)
}

/// The bytes of the whole groups of the text `t`: three bytes for each four
/// characters.
#[verifier::opaque]
pub open spec fn dec(t: Seq<u8>) -> Seq<u8> {
    Seq::new((t.len() / 4 * 3) as nat, |k: int| dec_at(t, k))
}

/// Length and characters of the text of `b`.
pub proof fn lemma_enc_at(b: Seq<u8>)
    ensures
        enc(b).len() == b.len() / 3 * 4,
        forall|j: int| 0 <= j < enc(b).len() ==> #[trigger] enc(b)[j] == enc_at(b, j),
{
    reveal(enc);
}

/// Length of the bytes of the text `t`.
pub proof fn lemma_dec_len(t: Seq<u8>)
    ensures
        dec(t).len() == t.len() / 4 * 3,
{
    reveal(dec);
}

/// A digit's character stands for that digit.
pub proof fn lemma_char_value(v: u8)
    requires
        v < 64,
    ensures
        b64_value(b64_char(v)) == Some(v),
{
}

/// A character of the alphabet is the character of its digit.
pub proof fn lemma_value_char(c: u8)
    ensures
        digit_of(c) < 64,
        b64_value(c).is_some() ==> b64_char(digit_of(c)) == c,
{
}

/// A digit of a group of bytes is below 64.
pub proof fn lemma_sextet_bound(b0: u8, b1: u8, b2: u8, i: int)
    ensures
        sextet(b0, b1, b2, i) < 64,
{
}

/// Three bytes survive the trip through four digits.
pub proof fn lemma_group_bytes(b0: u8, b1: u8, b2: u8)
    ensures
        group_byte(sextet(b0, b1, b2, 0), sextet(b0, b1, b2, 1), sextet(b0, b1, b2, 2), sextet(b0, b1, b2, 3), 0) == b0,
        group_byte(sextet(b0, b1, b2, 0), sextet(b0, b1, b2, 1), sextet(b0, b1, b2, 2), sextet(b0, b1, b2, 3), 1) == b1,
        group_byte(sextet(b0, b1, b2, 0), sextet(b0, b1, b2, 1), sextet(b0, b1, b2, 2), sextet(b0, b1, b2, 3), 2) == b2,
{
}

/// Four digits survive the trip through three bytes.
pub proof fn lemma_group_digits(s0: u8, s1: u8, s2: u8, s3: u8)
    requires
        s0 < 64,
        s1 < 64,
        s2 < 64,
        s3 < 64,
    ensures
        sextet(group_byte(s0, s1, s2, s3, 0), group_byte(s0, s1, s2, s3, 1), group_byte(s0, s1, s2, s3, 2), 0) == s0,
        sextet(group_byte(s0, s1, s2, s3, 0), group_byte(s0, s1, s2, s3, 1), group_byte(s0, s1, s2, s3, 2), 1) == s1,
        sextet(group_byte(s0, s1, s2, s3, 0), group_byte(s0, s1, s2, s3, 1), group_byte(s0, s1, s2, s3, 2), 2) == s2,
        sextet(group_byte(s0, s1, s2, s3, 0), group_byte(s0, s1, s2, s3, 1), group_byte(s0, s1, s2, s3, 2), 3) == s3,
{
}

/// Quotient and remainder by four of `4 * q + r`.
pub proof fn lemma_div4(q: int, r: int)
    requires
        0 <= q,
        0 <= r < 4,
    ensures
        (4 * q + r) / 4 == q,
        (4 * q + r) % 4 == r,
{
}

/// Quotient and remainder by three of `3 * q + r`.
pub proof fn lemma_div3(q: int, r: int)
    requires
        0 <= q,
        0 <= r < 3,
    ensures
        (3 * q + r) / 3 == q,
        (3 * q + r) % 3 == r,
{
}

/// Decoding the text of whole groups of bytes gives the bytes back.
pub proof fn lemma_dec_enc(b: Seq<u8>)
    requires
        b.len() % 3 == 0,
    ensures
        dec(enc(b)) == b,
{
    reveal(enc);
    reveal(dec);
    let e = enc(b);
    assert(e.len() % 4 == 0);
    assert(dec(e).len() == b.len());
    assert forall|k: int| 0 <= k < b.len() implies #[trigger] dec(e)[k] == b[k] by {
        let q = k / 3;
        let r = k % 3;
        assert(k == 3 * q + r);
        assert(4 * q + 3 < e.len());
        lemma_div4(q, 0);
        lemma_div4(q, 1);
        lemma_div4(q, 2);
        lemma_div4(q, 3);
        let (b0, b1, b2) = (b[3 * q], b[3 * q + 1], b[3 * q + 2]);
        lemma_sextet_bound(b0, b1, b2, 0);
        lemma_sextet_bound(b0, b1, b2, 1);
        lemma_sextet_bound(b0, b1, b2, 2);
        lemma_sextet_bound(b0, b1, b2, 3);
        lemma_char_value(sextet(b0, b1, b2, 0));
        lemma_char_value(sextet(b0, b1, b2, 1));
        lemma_char_value(sextet(b0, b1, b2, 2));
        lemma_char_value(sextet(b0, b1, b2, 3));
        assert(e[4 * q] == b64_char(sextet(b0, b1, b2, 0)));
        assert(e[4 * q + 1] == b64_char(sextet(b0, b1, b2, 1)));
        assert(e[4 * q + 2] == b64_char(sextet(b0, b1, b2, 2)));
        assert(e[4 * q + 3] == b64_char(sextet(b0, b1, b2, 3)));
        lemma_group_bytes(b0, b1, b2);
    }
    assert(dec(e) =~= b);
}

/// The text of the bytes of a text in the alphabet, of whole groups, is that
/// text.
pub proof fn lemma_enc_dec(t: Seq<u8>)
    requires
        t.len() % 4 == 0,
        is_b64(t),
    ensures
        enc(dec(t)) == t,
{
    reveal(enc);
    reveal(dec);
    let d = dec(t);
    assert(d.len() % 3 == 0);
    assert(enc(d).len() == t.len());
    assert forall|j: int| 0 <= j < t.len() implies #[trigger] enc(d)[j] == t[j] by {
        let q = j / 4;
        let r = j % 4;
        assert(j == 4 * q + r);
        assert(3 * q + 2 < d.len());
        lemma_div3(q, 0);
        lemma_div3(q, 1);
        lemma_div3(q, 2);
        let (s0, s1, s2, s3) = (
            digit_of(t[4 * q]),
            digit_of(t[4 * q + 1]),
            digit_of(t[4 * q + 2]),
            digit_of(t[4 * q + 3]),
        );
        lemma_value_char(t[4 * q]);
        lemma_value_char(t[4 * q + 1]);
        lemma_value_char(t[4 * q + 2]);
        lemma_value_char(t[4 * q + 3]);
        assert(b64_value(t[4 * q + r]).is_some());
        assert(d[3 * q] == group_byte(s0, s1, s2, s3, 0));
        assert(d[3 * q + 1] == group_byte(s0, s1, s2, s3, 1));
        assert(d[3 * q + 2] == group_byte(s0, s1, s2, s3, 2));
        lemma_group_digits(s0, s1, s2, s3);
    }
    assert(enc(d) =~= t);
}

/// The text of bytes of whole groups followed by more bytes is the text of
/// each, one after the other.
pub proof fn lemma_enc_concat(a: Seq<u8>, b: Seq<u8>)
    requires
        a.len() % 3 == 0,
    ensures
        enc(a + b) == enc(a) + enc(b),
{
    lemma_enc_at(a + b);
    lemma_enc_at(a);
    lemma_enc_at(b);
    let na = a.len() / 3;
    assert((a + b).len() / 3 == na + b.len() / 3);
    assert forall|j: int| 0 <= j < enc(a + b).len() implies #[trigger] enc(a + b)[j] == (enc(a) + enc(b))[j] by {
        let q = j / 4;
        let r = j % 4;
        assert(j == 4 * q + r);
        if j >= 4 * na {
            let j2 = j - 4 * na;
            assert(j2 == 4 * (q - na) + r);
            lemma_div4(q - na, r);
            assert(3 * q == a.len() + 3 * (q - na));
        }
    }
    assert(enc(a + b) =~= enc(a) + enc(b));
}

/// Every character of a text of bytes is in the alphabet.
pub proof fn lemma_enc_is_b64(b: Seq<u8>)
    ensures
        is_b64(enc(b)),
{
    reveal(enc);
    reveal(dec);
    let e = enc(b);
    assert forall|j: int| 0 <= j < e.len() implies (#[trigger] b64_value(e[j])).is_some() by {
        let g = 3 * (j / 4);
        lemma_sextet_bound(b[g], b[g + 1], b[g + 2], j % 4);
        lemma_char_value(sextet(b[g], b[g + 1], b[g + 2], j % 4));
    }
}

/// The character of the digit `v`.
pub fn digit_char(v: u8) -> (r: u8)
    requires
        v < 64,
    ensures
        r == b64_char(v),
{
    if v < 26 {
        v + 65
    } else if v < 52 {
        v + 71
    } else if v < 62 {
        v - 4
    } else if v == 62 {
        45
    } else {
        95
    }
}

/// The digit of the character `c`, with zero outside the alphabet.
pub fn char_digit(c: u8) -> (r: u8)
    ensures
        r == digit_of(c),
        r < 64,
{
    if 65 <= c && c <= 90 {
        c - 65
    } else if 97 <= c && c <= 122 {
        c - 71
    } else if 48 <= c && c <= 57 {
        c + 4
    } else if c == 45 {
        62
    } else if c == 95 {
        63
    } else {
        0
    }
}

/// Whether every character of `t` is in the alphabet.
pub fn all_b64(t: &[u8]) -> (r: bool)
    ensures
        r == is_b64(t@),
{
    let mut i: usize = 0;
    while i < t.len()
        invariant
            i <= t@.len(),
            forall|k: int| 0 <= k < i ==> (#[trigger] b64_value(t@[k])).is_some(),
        decreases t@.len() - i,
    {
        let c = t[i];
        if !(65 <= c && c <= 90 || 97 <= c && c <= 122 || 48 <= c && c <= 57 || c == 45 || c == 95) {
            assert(b64_value(t@[i as int]).is_none());
            return false;
        }
        i += 1;
    }
    true
}

/// The text of the whole groups of `b`.
pub fn encode(b: &[u8]) -> (r: Vec<u8>)
    ensures
        r@ == enc(b@),
{
    let len = b.len();
    let n = len / 3;
    let mut r: Vec<u8> = Vec::new();
    let mut g: usize = 0;
    while g < n
        invariant
            len == b@.len(),
            n == b@.len() / 3,
            g <= n,
            r@.len() == 4 * g,
            forall|j: int| 0 <= j < 4 * g ==> r@[j] == #[trigger] enc_at(b@, j),
        decreases n - g,
    {
        assert(3 * g + 3 <= b@.len()) by {
            assert(3 * (b@.len() / 3) <= b@.len());
        }
        let i = 3 * g;
        let (b0, b1, b2) = (b[i], b[i + 1], b[i + 2]);
        r.push(digit_char(b0 / 4));
        r.push(digit_char((b0 % 4) * 16 + b1 / 16));
        r.push(digit_char((b1 % 16) * 4 + b2 / 64));
        r.push(digit_char(b2 % 64));
        proof {
            lemma_div4(g as int, 0);
            lemma_div4(g as int, 1);
            lemma_div4(g as int, 2);
            lemma_div4(g as int, 3);
            assert forall|j: int| 0 <= j < 4 * (g + 1) implies r@[j] == #[trigger] enc_at(b@, j) by {
                if j >= 4 * g {
                    assert(j == 4 * g + (j - 4 * g));
                }
            }
        }
        g += 1;
    }
    reveal(enc);
    assert(r@ =~= enc(b@));
    r
}

/// The bytes of the whole groups of the text `t`; a character outside the
/// alphabet counts as the digit zero.
pub fn decode(t: &[u8]) -> (r: Vec<u8>)
    ensures
        r@ == dec(t@),
{
    let len = t.len();
    let n = len / 4;
    let mut r: Vec<u8> = Vec::new();
    let mut g: usize = 0;
    while g < n
        invariant
            len == t@.len(),
            n == t@.len() / 4,
            g <= n,
            r@.len() == 3 * g,
            forall|k: int| 0 <= k < 3 * g ==> r@[k] == #[trigger] dec_at(t@, k),
        decreases n - g,
    {
        assert(4 * g + 4 <= t@.len()) by {
            assert(4 * (t@.len() / 4) <= t@.len());
        }
        let i = 4 * g;
        let s0 = char_digit(t[i]);
        let s1 = char_digit(t[i + 1]);
        let s2 = char_digit(t[i + 2]);
        let s3 = char_digit(t[i + 3]);
        r.push(s0 * 4 + s1 / 16);
        r.push((s1 % 16) * 16 + s2 / 4);
        r.push((s2 % 4) * 64 + s3);
        proof {
            lemma_div3(g as int, 0);
            lemma_div3(g as int, 1);
            lemma_div3(g as int, 2);
            assert forall|k: int| 0 <= k < 3 * (g + 1) implies r@[k] == #[trigger] dec_at(t@, k) by {
                if k >= 3 * g {
                    assert(k == 3 * g + (k - 3 * g));
                }
            }
        }
        g += 1;
    }
    reveal(dec);
    assert(r@ =~= dec(t@));
    r
}

} // verus!
