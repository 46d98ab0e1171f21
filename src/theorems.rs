//! Laws that relate the code table, the encoder and the parser.
use vstd::prelude::*;

use crate::b64::{dec, enc, is_b64, lemma_dec_len, lemma_enc_concat, lemma_enc_dec};
use crate::codex::{code_of, codex_of, hard_size_of, sizage_of, MatterCodex};
use crate::error::Error;
use crate::matter::Matter;
use crate::matter::{
    framed, hard_len, lemma_encoding, lemma_round_trip, lemma_table, parse_qb64, qb2_of, qb64_of,
    raw_size_of,
};

verus! {

/// Raw bytes of the length that a code fixes, once encoded under that
/// code, parse back to the same code and bytes.
pub proof fn raw_round_trip(c: MatterCodex, raw: Seq<u8>)
    requires
        raw.len() == raw_size_of(c),
    ensures
        parse_qb64(qb64_of(c, raw)) == Ok::<(MatterCodex, Seq<u8>), Error>((c, raw)),
{
    lemma_round_trip(c, raw, Seq::empty());
    assert(qb64_of(c, raw) + Seq::<u8>::empty() =~= qb64_of(c, raw));
}

/// Any text of whole groups in the alphabet goes to binary and back
/// unchanged, and so does its binary.
pub proof fn text_binary_round_trip(s: Seq<u8>)
    requires
        s.len() % 4 == 0,
        is_b64(s),
    ensures
        enc(dec(s)) == s,
        dec(enc(dec(s))) == dec(s),
{
    lemma_enc_dec(s);
}

/// Every text that the encoder produces is whole groups in the alphabet
/// (so `to_qb2` takes it), its binary is whole groups of bytes (so `to_qb64`
/// takes that), and text and binary go each to the other and back unchanged.
pub proof fn encoding_binary_round_trip(c: MatterCodex, raw: Seq<u8>)
    requires
        raw.len() == raw_size_of(c),
    ensures
        qb64_of(c, raw).len() % 4 == 0,
        is_b64(qb64_of(c, raw)),
        qb2_of(c, raw).len() % 3 == 0,
        enc(qb2_of(c, raw)) == qb64_of(c, raw),
        dec(enc(qb2_of(c, raw))) == qb2_of(c, raw),
{
    lemma_table(c);
    lemma_encoding(c, raw);
    lemma_dec_len(qb64_of(c, raw));
    lemma_enc_dec(qb64_of(c, raw));
}

/// The header length that the Hards table gives for a code's first
/// character is the length of that code.
pub proof fn hards_give_code_length(c: MatterCodex)
    ensures
        hard_size_of(code_of(c)[0]) == Some(code_of(c).len() as u16),
{
    lemma_table(c);
}

/// The header length that the Hards table gives for a code's first
/// character is the hard size of its sizes, for every code but the
/// signature code, whose table entry fixes a hard size of four for a code
/// of two characters.
pub proof fn hards_match_hard_size(c: MatterCodex)
    requires
        c != MatterCodex::Ed25519Sig,
    ensures
        hard_size_of(code_of(c)[0]) == Some(sizage_of(c).hs as u16),
{
    lemma_table(c);
}

/// Every code's full size is whole groups of four characters and holds its
/// header.
pub proof fn full_size_whole(c: MatterCodex)
    ensures
        sizage_of(c).fs % 4 == 0,
        sizage_of(c).fs >= sizage_of(c).hs + sizage_of(c).ss,
{
    lemma_table(c);
}

/// Every proper prefix of an encoding fails to parse, and as a shortage.
pub proof fn truncation_is_shortage(c: MatterCodex, raw: Seq<u8>, k: int)
    requires
        raw.len() == raw_size_of(c),
        0 <= k < sizage_of(c).fs,
    ensures
        parse_qb64(qb64_of(c, raw).take(k)) == Err::<(MatterCodex, Seq<u8>), Error>(
            Error::Shortage,
        ),
{
    lemma_table(c);
    lemma_encoding(c, raw);
    let q = qb64_of(c, raw);
    let t = q.take(k);
    let h = hard_len(c) as int;
    if k > 0 {
        assert(t[0] as char == code_of(c)[0]);
        if k >= h {
            assert(t.take(h) =~= q.take(h));
            crate::codex::lemma_codex_of_code(c);
        }
    }
}

/// Of two encodings one after the other, the parser reads the first, and
/// taking off its full size leaves the second.
pub proof fn strip_leaves_next(a: MatterCodex, ra: Seq<u8>, b: MatterCodex, rb: Seq<u8>)
    requires
        ra.len() == raw_size_of(a),
        rb.len() == raw_size_of(b),
    ensures
        parse_qb64(qb64_of(a, ra) + qb64_of(b, rb)) == Ok::<(MatterCodex, Seq<u8>), Error>(
            (a, ra),
        ),
        (qb64_of(a, ra) + qb64_of(b, rb)).skip(sizage_of(a).fs as int) == qb64_of(b, rb),
        parse_qb64((qb64_of(a, ra) + qb64_of(b, rb)).skip(sizage_of(a).fs as int)) == Ok::<
            (MatterCodex, Seq<u8>),
            Error,
        >((b, rb)),
{
    lemma_round_trip(a, ra, qb64_of(b, rb));
    lemma_encoding(a, ra);
    assert((qb64_of(a, ra) + qb64_of(b, rb)).skip(sizage_of(a).fs as int) =~= qb64_of(b, rb));
    raw_round_trip(b, rb);
}

/// The packed binary of an encoding, followed by any other bytes, has the
/// full size's three quarters in bytes and reads back to the same code and
/// raw bytes.
pub proof fn binary_round_trip(c: MatterCodex, raw: Seq<u8>, rest: Seq<u8>)
    requires
        raw.len() == raw_size_of(c),
    ensures
        qb2_of(c, raw).len() == sizage_of(c).fs / 4 * 3,
        parse_qb64(enc(qb2_of(c, raw) + rest)) == Ok::<(MatterCodex, Seq<u8>), Error>((c, raw)),
{
    encoding_binary_round_trip(c, raw);
    lemma_encoding(c, raw);
    lemma_dec_len(qb64_of(c, raw));
    lemma_enc_concat(qb2_of(c, raw), rest);
    lemma_round_trip(c, raw, enc(rest));
}

/// A primitive that the constructor framed from raw bytes has a text of the
/// code's full size, and reading that text back gives the same code and raw
/// bytes.
pub proof fn framed_text_reads_back(m: Matter, code: Seq<u8>, raw: Seq<u8>, strip: bool)
    requires
        framed(Ok(m), code, raw, strip),
    ensures
        codex_of(code) is Some,
        m.qb64b is Some,
        m.qb64b->Some_0@.len() == sizage_of(codex_of(code)->Some_0).fs,
        parse_qb64(m.qb64b->Some_0@) == Ok::<(MatterCodex, Seq<u8>), Error>(
            (codex_of(code)->Some_0, raw),
        ),
{
    let c = codex_of(code)->Some_0;
    lemma_encoding(c, raw);
    raw_round_trip(c, raw);
}

} // verus!
