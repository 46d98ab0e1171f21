//! A primitive as raw bytes under a code, with its two encodings, and the
//! framing that turns one into the other.
use vstd::prelude::*;
use vstd::slice::{slice_subrange, slice_to_vec};
use vstd::string::StringSliceAdditionalSpecFns;

use crate::b64::{
    all_b64, b64_value, dec, decode, enc, encode, is_b64, lemma_dec_enc, lemma_dec_len,
    lemma_enc_at, lemma_enc_dec, lemma_enc_is_b64,
};
use crate::codex::{
    code_bytes_of, code_of, codex_of, hard_size_of, hards, lemma_codex_of_code, sizage_of,
    MatterCodex,
};
use crate::error::Error;

verus! {

/// One primitive: raw bytes, their code, the text form (`qb64`, also as
/// bytes in `qb64b`), the packed binary form (`qb2`), and whether parsing
/// consumed its input.
#[derive(Debug)]
pub struct Matter {
    pub raw: Option<Vec<u8>>,
    pub code: &'static str,
    pub qb64b: Option<Vec<u8>>,
    pub qb64: Option<String>,
    pub qb2: Option<Vec<u8>>,
    pub strip: Option<bool>,
}

/// Length of a kind's code, which the Hards table announces from its
/// first character.
pub open spec fn hard_len(c: MatterCodex) -> nat {
    code_of(c).len()
}

/// Characters of the header of a kind's encoding: its hard and soft sizes.
pub open spec fn head_len(c: MatterCodex) -> nat {
    (sizage_of(c).hs + sizage_of(c).ss) as nat
}

/// Zero bytes put before the payload so that, once encoded, their digits
/// give way to the header.
pub open spec fn pad_size(c: MatterCodex) -> nat {
    head_len(c) % 4
}

/// The number of raw bytes that a kind's code frames: three bytes for each
/// four characters behind the header, less the lead bytes.
pub open spec fn raw_size_of(c: MatterCodex) -> int {
    let s = sizage_of(c);
    (s.fs - s.hs - s.ss) * 3 / 4 - s.ls
}

/// `n` zero bytes.
pub open spec fn zeros(n: nat) -> Seq<u8> {
    Seq::new(n, |i: int| 0u8)
}

/// The raw bytes behind their pad and lead bytes.
pub open spec fn padded(c: MatterCodex, raw: Seq<u8>) -> Seq<u8> {
    zeros(pad_size(c) + sizage_of(c).ls as nat) + raw
}

/// The header of a kind's encoding: its code, filled up with zero digits
/// to the header's length.
pub open spec fn header_of(c: MatterCodex) -> Seq<u8> {
    code_bytes_of(c) + zero_digits((head_len(c) - hard_len(c)) as nat)
}

/// The text encoding of `raw` under the code of `c`: the header, then the
/// encoded padded payload without the digits that the pad alone fills.
pub open spec fn qb64_of(c: MatterCodex, raw: Seq<u8>) -> Seq<u8> {
    header_of(c) + enc(padded(c, raw)).skip(pad_size(c) as int)
}

/// The packed binary encoding of `raw` under the code of `c`.
pub open spec fn qb2_of(c: MatterCodex, raw: Seq<u8>) -> Seq<u8> {
    dec(qb64_of(c, raw))
}

/// The characters of ASCII bytes.
pub open spec fn ascii_chars(b: Seq<u8>) -> Seq<char> {
    b.map_values(|x: u8| x as char)
}

/// `m` holds `raw` under the code of `c`, with both of its encodings.
pub open spec fn holds(m: Matter, c: MatterCodex, raw: Seq<u8>, strip: bool) -> bool {
    &&& m.raw matches Some(r) && r@ == raw
    &&& m.code@ == code_of(c)
    &&& m.qb64b matches Some(q) && q@ == qb64_of(c, raw)
    &&& m.qb64 matches Some(q) && q@ == ascii_chars(qb64_of(c, raw))
    &&& m.qb2 matches Some(q) && q@ == qb2_of(c, raw)
    &&& m.strip == Some(strip)
}

/// `n` zero digits of text.
pub open spec fn zero_digits(n: nat) -> Seq<u8> {
    Seq::new(n, |i: int| 65u8)
}

/// What the text `t` begins with: a kind and raw bytes, or why it cannot
/// be read. The first character gives the code's length, the code gives
/// the header and full sizes; the header is filled up with zero digits, and
/// the body behind it, with the pad digits put back, decodes to zero pad
/// and lead bytes and then the raw bytes.
pub open spec fn parse_qb64(t: Seq<u8>) -> Result<(MatterCodex, Seq<u8>), Error> {
    if t.len() == 0 {
        Err(Error::Shortage)
    } else if hard_size_of(t[0] as char) is None {
        Err(Error::UnknownHard)
    } else {
        let h = hard_size_of(t[0] as char)->Some_0 as int;
        if t.len() < h {
            Err(Error::Shortage)
        } else if codex_of(t.take(h)) is None {
            Err(Error::UnknownCode)
        } else {
            let c = codex_of(t.take(h))->Some_0;
            let fs = sizage_of(c).fs as int;
            if t.len() < fs {
                Err(Error::Shortage)
            } else {
                let hl = head_len(c) as int;
                let body = t.subrange(hl, fs);
                let full = dec(zero_digits(pad_size(c)) + body);
                let n = pad_size(c) + sizage_of(c).ls;
                if t.subrange(h, hl) != zero_digits((hl - h) as nat) || !is_b64(body)
                    || full.take(n as int) != zeros(n as nat) {
                    Err(Error::InvalidPayload)
                } else {
                    Ok((c, full.skip(n as int)))
                }
            }
        }
    }
}

/// Facts of the code table that framing rests on.
pub proof fn lemma_table(c: MatterCodex)
    ensures
        sizage_of(c).fs % 4 == 0,
        sizage_of(c).fs >= sizage_of(c).hs + sizage_of(c).ss,
        sizage_of(c).ss == 0,
        hard_len(c) == 1 || hard_len(c) == 2 || hard_len(c) == 4,
        head_len(c) == 1 || head_len(c) == 2 || head_len(c) == 4,
        hard_len(c) <= head_len(c) < sizage_of(c).fs,
        (sizage_of(c).fs - head_len(c) + pad_size(c)) % 4 == 0,
        raw_size_of(c) == (sizage_of(c).fs - head_len(c) + pad_size(c)) / 4 * 3 - pad_size(c)
            - sizage_of(c).ls,
        raw_size_of(c) >= 0,
        hard_size_of(code_of(c)[0]) == Some(hard_len(c) as u16),
{
}

/// The shape of the encoding of raw bytes of the right length.
pub proof fn lemma_encoding(c: MatterCodex, raw: Seq<u8>)
    requires
        raw.len() == raw_size_of(c),
    ensures
        padded(c, raw).len() % 3 == 0,
        enc(padded(c, raw)).len() == sizage_of(c).fs - head_len(c) + pad_size(c),
        qb64_of(c, raw).len() == sizage_of(c).fs,
        qb64_of(c, raw).take(hard_len(c) as int) == code_bytes_of(c),
        qb64_of(c, raw).take(head_len(c) as int) == header_of(c),
        forall|i: int| 0 <= i < pad_size(c) ==> enc(padded(c, raw))[i] == 65u8,
        is_b64(qb64_of(c, raw)),
{
    lemma_table(c);
    let p = padded(c, raw);
    let e = enc(p);
    let q = qb64_of(c, raw);
    let h = hard_len(c) as int;
    let hl = head_len(c) as int;
    let ps = pad_size(c) as int;
    lemma_enc_at(p);
    assert(p.len() == (sizage_of(c).fs - hl + ps) / 4 * 3);
    assert(e.len() == sizage_of(c).fs - hl + ps);
    assert(q.take(h) =~= code_bytes_of(c));
    assert(q.take(hl) =~= header_of(c));
    assert forall|i: int| 0 <= i < ps implies e[i] == 65u8 by {
        assert(p[0] == 0u8);
        if i == 1 {
            assert(p[1] == 0u8);
        }
        assert(i / 4 == 0);
    }
    lemma_enc_is_b64(p);
    assert forall|i: int| 0 <= i < q.len() implies (#[trigger] b64_value(q[i])).is_some() by {
        if i >= hl {
            assert(q[i] == e[i - hl + ps]);
            assert(b64_value(e[i - hl + ps]).is_some());
        } else if i >= h {
            assert(q[i] == 65u8);
        }
    }
}

/// Every text that parses is the encoding of what it parses to: nothing
/// else spells the same kind and raw bytes.
pub proof fn lemma_parse_canonical(t: Seq<u8>)
    requires
        parse_qb64(t) is Ok,
    ensures
        ({
            let (c, raw) = parse_qb64(t)->Ok_0;
            &&& raw.len() == raw_size_of(c)
            &&& t.len() >= sizage_of(c).fs
            &&& t.take(sizage_of(c).fs as int) == qb64_of(c, raw)
        }),
{
    let (c, raw) = parse_qb64(t)->Ok_0;
    let h = hard_size_of(t[0] as char)->Some_0 as int;
    assert(codex_of(t.take(h)) == Some(c));
    lemma_codex_of_code_len(t.take(h));
    assert(hard_len(c) == h);
    lemma_table(c);
    let fs = sizage_of(c).fs as int;
    let hl = head_len(c) as int;
    let ps = pad_size(c) as int;
    let n = ps + sizage_of(c).ls;
    let body = t.subrange(hl, fs);
    let z = zero_digits(ps as nat) + body;
    let full = dec(z);
    assert(t.subrange(h, hl) == zero_digits((hl - h) as nat));
    assert(z.len() % 4 == 0);
    lemma_dec_len(z);
    assert forall|i: int| 0 <= i < z.len() implies (#[trigger] b64_value(z[i])).is_some() by {
        if i >= ps {
            assert(z[i] == body[i - ps]);
        }
    }
    lemma_enc_dec(z);
    assert(full.take(n) == zeros(n as nat));
    assert(full =~= padded(c, raw));
    assert(enc(padded(c, raw)).skip(ps) =~= body);
    assert(t.take(hl) =~= header_of(c));
    assert(t.take(fs) =~= qb64_of(c, raw));
}

/// Raw bytes of the right length, framed under a code and followed by any
/// other text, parse back to the same kind and bytes.
pub proof fn lemma_round_trip(c: MatterCodex, raw: Seq<u8>, rest: Seq<u8>)
    requires
        raw.len() == raw_size_of(c),
    ensures
        parse_qb64(qb64_of(c, raw) + rest) == Ok::<(MatterCodex, Seq<u8>), Error>((c, raw)),
{
    lemma_table(c);
    lemma_encoding(c, raw);
    let q = qb64_of(c, raw);
    let t = q + rest;
    let h = hard_len(c) as int;
    let hl = head_len(c) as int;
    let fs = sizage_of(c).fs as int;
    let ps = pad_size(c) as int;
    let n = ps + sizage_of(c).ls;
    let p = padded(c, raw);
    let e = enc(p);
    lemma_enc_at(p);
    assert(t[0] == code_bytes_of(c)[0]);
    assert(t[0] as char == code_of(c)[0]);
    assert(t.take(h) =~= code_bytes_of(c));
    lemma_codex_of_code(c);
    assert(t.subrange(h, hl) =~= zero_digits((hl - h) as nat));
    let body = t.subrange(hl, fs);
    assert(body =~= q.subrange(hl, fs));
    assert(zero_digits(ps as nat) + body =~= e);
    assert forall|i: int| 0 <= i < body.len() implies (#[trigger] b64_value(body[i])).is_some() by {
        assert(body[i] == q[i + hl]);
    }
    lemma_dec_enc(p);
    assert(p.take(n) =~= zeros(n as nat));
    assert(p.skip(n) =~= raw);
}

/// A text whose leading code is found has that code's length.
proof fn lemma_codex_of_code_len(t: Seq<u8>)
    requires
        codex_of(t) is Some,
    ensures
        code_bytes_of(codex_of(t)->Some_0) == t,
        hard_len(codex_of(t)->Some_0) == t.len(),
{
}

/// Relies on `String::from_utf8`: bytes below 128 are valid UTF-8, each
/// byte one character.
#[verifier::external_body]
fn ascii_string(b: Vec<u8>) -> (r: String)
    requires
        forall|i: int| 0 <= i < b@.len() ==> b@[i] < 128,
    ensures
        r@ == ascii_chars(b@),
{
    String::from_utf8(b).unwrap()
}

/// The primitive that holds `raw` under `c`, given its text `q`.
fn assemble(c: MatterCodex, raw: Vec<u8>, q: Vec<u8>, strip: bool) -> (m: Matter)
    requires
        raw@.len() == raw_size_of(c),
        q@ == qb64_of(c, raw@),
    ensures
        holds(m, c, raw@, strip),
{
    proof {
        lemma_encoding(c, raw@);
    }
    let qb2 = decode(q.as_slice());
    let text = q.clone();
    assert(text@ =~= q@);
    assert forall|k: int| 0 <= k < text@.len() implies text@[k] < 128 by {
        assert(b64_value(q@[k]).is_some());
    }
    let qb64 = ascii_string(text);
    Matter {
        raw: Some(raw),
        code: c.code(),
        qb64b: Some(q),
        qb64: Some(qb64),
        qb2: Some(qb2),
        strip: Some(strip),
    }
}

/// The kind and raw bytes that the text `t` begins with.
#[verifier::loop_isolation(false)]
fn parse(t: &[u8]) -> (r: Result<(MatterCodex, Vec<u8>), Error>)
    ensures
        match parse_qb64(t@) {
            Ok((c, raw)) => r matches Ok((d, v)) && d == c && v@ == raw,
            Err(e) => r == Err::<(MatterCodex, Vec<u8>), Error>(e),
        },
{
    if t.len() == 0 {
        return Err(Error::Shortage);
    }
    let h = match hards(t[0] as char) {
        Some(h) => h as usize,
        None => return Err(Error::UnknownHard),
    };
    if t.len() < h {
        return Err(Error::Shortage);
    }
    let c = match MatterCodex::from_code(slice_subrange(t, 0, h)) {
        Some(c) => c,
        None => return Err(Error::UnknownCode),
    };
    proof {
        assert(t@.subrange(0, h as int) =~= t@.take(h as int));
        lemma_codex_of_code_len(t@.take(h as int));
        lemma_table(c);
    }
    let s = c.sizes();
    let fs = s.fs;
    if t.len() < fs {
        return Err(Error::Shortage);
    }
    let hl = s.hs + s.ss;
    let mut f: usize = h;
    while f < hl
        invariant
            h <= f <= hl,
            t@.subrange(h as int, f as int) == zero_digits((f - h) as nat),
        decreases hl - f,
    {
        if t[f] != 65 {
            assert(t@.subrange(h as int, hl as int)[f - h] != zero_digits((hl - h) as nat)[f - h]);
            return Err(Error::InvalidPayload);
        }
        f += 1;
        assert(t@.subrange(h as int, f as int) =~= zero_digits((f - h) as nat));
    }
    let body = slice_subrange(t, hl, fs);
    if !all_b64(body) {
        return Err(Error::InvalidPayload);
    }
    let ps = hl % 4;
    let mut z: Vec<u8> = Vec::new();
    while z.len() < ps
        invariant
            z@.len() <= ps,
            z@ == zero_digits(z@.len()),
        decreases ps - z@.len(),
    {
        z.push(65);
        assert(z@ =~= zero_digits(z@.len()));
    }
    let mut k: usize = 0;
    while k < body.len()
        invariant
            k <= body@.len(),
            z@ == zero_digits(ps as nat) + body@.take(k as int),
        decreases body@.len() - k,
    {
        z.push(body[k]);
        k += 1;
        assert(z@ =~= zero_digits(ps as nat) + body@.take(k as int));
    }
    assert(body@.take(k as int) =~= body@);
    assert(z@ == zero_digits(pad_size(c)) + t@.subrange(hl as int, fs as int));
    let mut full = decode(z.as_slice());
    let n = ps + s.ls;
    proof {
        lemma_dec_len(z@);
        assert(n == pad_size(c) + sizage_of(c).ls);
    }
    let mut i: usize = 0;
    while i < n
        invariant
            i <= n,
            n <= full@.len(),
            full@.take(i as int) == zeros(i as nat),
        decreases n - i,
    {
        if full[i] != 0 {
            assert(full@.take(n as int)[i as int] != zeros(n as nat)[i as int]);
            assert(full@.take(n as int) != zeros(n as nat));
            return Err(Error::InvalidPayload);
        }
        i += 1;
        assert(full@.take(i as int) =~= zeros(i as nat));
    }
    let raw = full.split_off(n);
    Ok((c, raw))
}

/// `r` is what framing `raw` under the code written as `code` gives: an
/// unknown code, a raw length that does not fit it, or the primitive.
pub open spec fn framed(r: Result<Matter, Error>, code: Seq<u8>, raw: Seq<u8>, strip: bool) -> bool {
    match codex_of(code) {
        None => r == Err::<Matter, Error>(Error::UnknownCode),
        Some(c) => if raw.len() != raw_size_of(c) {
            r == Err::<Matter, Error>(Error::RawSize)
        } else {
            r matches Ok(m) && holds(m, c, raw, strip)
        },
    }
}

/// `r` is what reading the text `t` gives: the primitive it begins with, or
/// why it cannot be read.
pub open spec fn parsed(r: Result<Matter, Error>, t: Seq<u8>, strip: bool) -> bool {
    match parse_qb64(t) {
        Ok((c, raw)) => r matches Ok(m) && holds(m, c, raw, strip),
        Err(e) => r == Err::<Matter, Error>(e),
    }
}

/// A byte buffer after a primitive was read from its text `t`: with `strip`
/// set and on success, the primitive's characters (its bytes, for a
/// `binary` buffer) are gone from its front; otherwise it is as it was.
pub open spec fn consumed(before: Seq<u8>, after: Seq<u8>, t: Seq<u8>, strip: bool, binary: bool) -> bool {
    match parse_qb64(t) {
        Ok((c, raw)) => after == if strip {
            before.skip(if binary { sizage_of(c).fs / 4 * 3 } else { sizage_of(c).fs as int })
        } else {
            before
        },
        Err(_) => after == before,
    }
}

impl Matter {
    /// Builds a primitive from whichever of its forms is given. With raw
    /// bytes, or with no encoding at all, it frames `raw` under the code
    /// written as `code`. Otherwise it reads the first encoding that is not
    /// empty, in the order `qb64b`, `qb64`, `qb2`; with `strip` set, what it
    /// read is taken off the front of that byte buffer.
    pub fn new(
        raw: Vec<u8>,
        code: &str,
        qb64b: &mut Vec<u8>,
        qb64: &str,
        qb2: &mut Vec<u8>,
        strip: bool,
    ) -> (r: Result<Matter, Error>)
        ensures
            if raw@.len() > 0 || (old(qb64b)@.len() == 0 && qb64.spec_bytes().len() == 0
                && old(qb2)@.len() == 0) {
                &&& framed(r, code.spec_bytes(), raw@, strip)
                &&& final(qb64b)@ == old(qb64b)@
                &&& final(qb2)@ == old(qb2)@
            } else if old(qb64b)@.len() > 0 {
                &&& parsed(r, old(qb64b)@, strip)
                &&& consumed(old(qb64b)@, final(qb64b)@, old(qb64b)@, strip, false)
                &&& final(qb2)@ == old(qb2)@
            } else if qb64.spec_bytes().len() > 0 {
                &&& parsed(r, qb64.spec_bytes(), false)
                &&& final(qb64b)@ == old(qb64b)@
                &&& final(qb2)@ == old(qb2)@
            } else {
                &&& parsed(r, enc(old(qb2)@), strip)
                &&& consumed(old(qb2)@, final(qb2)@, enc(old(qb2)@), strip, true)
                &&& final(qb64b)@ == old(qb64b)@
            },
    {
        let text_len = qb64.as_bytes().len();
        if raw.len() > 0 || (qb64b.len() == 0 && text_len == 0 && qb2.len() == 0) {
            match Matter::from_raw(raw, code) {
                Ok(m) => {
                    let mut m = m;
                    m.strip = Some(strip);
                    Ok(m)
                },
                Err(e) => Err(e),
            }
        } else if qb64b.len() > 0 {
            Matter::from_qb64b(qb64b, strip)
        } else if text_len > 0 {
            Matter::from_qb64(qb64)
        } else {
            Matter::from_qb2(qb2, strip)
        }
    }
}

impl Matter {
    /// Frames `raw` under the kind written as `code`. Fails with
    /// `UnknownCode` on a code outside the table, and with `RawSize` when
    /// `raw` does not have the length that the code fixes.
    pub fn from_raw(raw: Vec<u8>, code: &str) -> (r: Result<Matter, Error>)
        ensures
            match codex_of(code.spec_bytes()) {
                None => r == Err::<Matter, Error>(Error::UnknownCode),
                Some(c) => if raw@.len() != raw_size_of(c) {
                    r == Err::<Matter, Error>(Error::RawSize)
                } else {
                    r matches Ok(m) && holds(m, c, raw@, false)
                },
            },
    {
        let c = match MatterCodex::from_code(code.as_bytes()) {
            Some(c) => c,
            None => return Err(Error::UnknownCode),
        };
        if raw.len() != c.raw_size() {
            return Err(Error::RawSize);
        }
        proof {
            lemma_table(c);
            lemma_encoding(c, raw@);
        }
        let s = c.sizes();
        let mut q = c.code_bytes();
        let hl = s.hs + s.ss;
        let ps = hl % 4;
        while q.len() < hl
            invariant
                hard_len(c) <= q@.len() <= hl,
                hl == head_len(c),
                q@ == code_bytes_of(c) + zero_digits((q@.len() - hard_len(c)) as nat),
            decreases hl - q@.len(),
        {
            q.push(65);
            assert(q@ =~= code_bytes_of(c) + zero_digits((q@.len() - hard_len(c)) as nat));
        }
        assert(q@ == header_of(c));
        let n = ps + s.ls;
        let mut p: Vec<u8> = Vec::new();
        while p.len() < n
            invariant
                p@.len() <= n,
                p@ == zeros(p@.len()),
            decreases n - p@.len(),
        {
            p.push(0);
            assert(p@ =~= zeros(p@.len()));
        }
        let mut i: usize = 0;
        while i < raw.len()
            invariant
                i <= raw@.len(),
                p@ == zeros(n as nat) + raw@.take(i as int),
            decreases raw@.len() - i,
        {
            p.push(raw[i]);
            i += 1;
            assert(p@ =~= zeros(n as nat) + raw@.take(i as int));
        }
        assert(p@ =~= padded(c, raw@));
        let e = encode(p.as_slice());
        let mut j: usize = ps;
        while j < e.len()
            invariant
                ps <= j <= e@.len(),
                e@ == enc(padded(c, raw@)),
                ps == pad_size(c),
                q@ == header_of(c) + e@.subrange(ps as int, j as int),
            decreases e@.len() - j,
        {
            q.push(e[j]);
            j += 1;
            assert(q@ =~= header_of(c) + e@.subrange(ps as int, j as int));
        }
        assert(q@ =~= qb64_of(c, raw@));
        Ok(assemble(c, raw, q, false))
    }
}

impl Matter {
    /// Reads the primitive that the text `buf` begins with. On success, and
    /// when `strip` is set, its characters are taken off the front of
    /// `buf`; otherwise `buf` is left as it was.
    pub fn from_qb64b(buf: &mut Vec<u8>, strip: bool) -> (r: Result<Matter, Error>)
        ensures
            match parse_qb64(old(buf)@) {
                Ok((c, raw)) => {
                    &&& r matches Ok(m) && holds(m, c, raw, strip)
                    &&& final(buf)@ == if strip {
                        old(buf)@.skip(sizage_of(c).fs as int)
                    } else {
                        old(buf)@
                    }
                },
                Err(e) => r == Err::<Matter, Error>(e) && final(buf)@ == old(buf)@,
            },
    {
        let (c, raw) = match parse(buf.as_slice()) {
            Ok(p) => p,
            Err(e) => return Err(e),
        };
        proof {
            lemma_parse_canonical(buf@);
            lemma_table(c);
            lemma_encoding(c, raw@);
        }
        let fs = c.sizes().fs;
        let q = slice_to_vec(slice_subrange(buf.as_slice(), 0, fs));
        assert(q@ =~= qb64_of(c, raw@));
        if strip {
            let tail = buf.split_off(fs);
            *buf = tail;
        }
        Ok(assemble(c, raw, q, strip))
    }

    /// Reads the primitive that the packed binary `buf` begins with, as the
    /// text of its whole groups reads. On success, and when `strip` is set,
    /// its bytes are taken off the front of `buf`; otherwise `buf` is left as
    /// it was.
    pub fn from_qb2(buf: &mut Vec<u8>, strip: bool) -> (r: Result<Matter, Error>)
        ensures
            match parse_qb64(enc(old(buf)@)) {
                Ok((c, raw)) => {
                    &&& r matches Ok(m) && holds(m, c, raw, strip)
                    &&& final(buf)@ == if strip {
                        old(buf)@.skip(sizage_of(c).fs / 4 * 3)
                    } else {
                        old(buf)@
                    }
                },
                Err(e) => r == Err::<Matter, Error>(e) && final(buf)@ == old(buf)@,
            },
    {
        let t = encode(buf.as_slice());
        let (c, raw) = match parse(t.as_slice()) {
            Ok(p) => p,
            Err(e) => return Err(e),
        };
        proof {
            lemma_parse_canonical(t@);
            lemma_table(c);
            lemma_enc_at(buf@);
        }
        let fs = c.sizes().fs;
        let q = slice_to_vec(slice_subrange(t.as_slice(), 0, fs));
        assert(q@ =~= qb64_of(c, raw@));
        if strip {
            let tail = buf.split_off(fs / 4 * 3);
            *buf = tail;
        }
        Ok(assemble(c, raw, q, strip))
    }

    /// Reads the primitive that the text `qb64` begins with.
    pub fn from_qb64(qb64: &str) -> (r: Result<Matter, Error>)
        ensures
            match parse_qb64(qb64.spec_bytes()) {
                Ok((c, raw)) => r matches Ok(m) && holds(m, c, raw, false),
                Err(e) => r == Err::<Matter, Error>(e),
            },
    {
        let mut buf = slice_to_vec(qb64.as_bytes());
        Matter::from_qb64b(&mut buf, false)
    }
}

/// The packed binary form of a text: fails with `InvalidPayload` unless the
/// text is whole groups of four characters of the alphabet.
pub fn to_qb2(qb64: &[u8]) -> (r: Result<Vec<u8>, Error>)
    ensures
        if qb64@.len() % 4 == 0 && is_b64(qb64@) {
            r matches Ok(v) && v@ == dec(qb64@)
        } else {
            r == Err::<Vec<u8>, Error>(Error::InvalidPayload)
        },
{
    if qb64.len() % 4 != 0 || !all_b64(qb64) {
        return Err(Error::InvalidPayload);
    }
    Ok(decode(qb64))
}

/// The text form of packed binary: fails with `InvalidPayload` unless the
/// binary is whole groups of three bytes.
pub fn to_qb64(qb2: &[u8]) -> (r: Result<Vec<u8>, Error>)
    ensures
        if qb2@.len() % 3 == 0 {
            r matches Ok(v) && v@ == enc(qb2@)
        } else {
            r == Err::<Vec<u8>, Error>(Error::InvalidPayload)
        },
{
    if qb2.len() % 3 != 0 {
        return Err(Error::InvalidPayload);
    }
    Ok(encode(qb2))
}

impl Default for Matter {
    /// An empty placeholder under the non-transferable verification key code.
    fn default() -> (r: Matter)
        ensures
            r.raw matches Some(v) && v@.len() == 0,
            r.code@ == code_of(MatterCodex::Ed25519N),
            r.qb64b matches Some(v) && v@.len() == 0,
            r.qb64 matches Some(s) && s@.len() == 0,
            r.qb2 matches Some(v) && v@.len() == 0,
            r.strip == Some(false),
    {
        Matter {
            raw: Some(Vec::new()),
            code: MatterCodex::Ed25519N.code(),
            qb64b: Some(Vec::new()),
            qb64: Some(String::new()),
            qb2: Some(Vec::new()),
            strip: Some(false),
        }
    }
}

impl MatterCodex {
    /// The number of raw bytes that this kind's code frames.
    pub fn raw_size(&self) -> (r: usize)
        ensures
            r == raw_size_of(*self),
    {
        proof { lemma_table(*self); }
        let s = self.sizes();
        (s.fs - s.hs - s.ss) * 3 / 4 - s.ls
    }
}

} // verus!
