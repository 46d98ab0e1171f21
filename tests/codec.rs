use matter_codec::b64::{decode, encode};
use matter_codec::codex::{hards, sizage, MatterCodex};
use matter_codec::error::error::Error as GeneralError;
use matter_codec::error::Error;
use matter_codec::matter::{to_qb2, to_qb64, Matter};
use matter_codec::sizage::Sizage;

#[test]
fn zero_digest_encodes_and_decodes() {
    let m = Matter::from_raw(vec![0u8; 32], "E").unwrap();
    let qb64 = m.qb64.clone().unwrap();
    assert_eq!(qb64.len(), 44);
    assert!(qb64.starts_with('E'));
    assert_eq!(qb64, format!("E{}", "A".repeat(43)));
    assert_eq!(m.qb64b.clone().unwrap(), qb64.as_bytes().to_vec());
    assert_eq!(m.qb2.clone().unwrap(), vec![0x10u8; 1].into_iter().chain(vec![0u8; 32]).collect::<Vec<u8>>());

    let back = Matter::from_qb64(&qb64).unwrap();
    assert_eq!(back.raw.unwrap(), vec![0u8; 32]);
    assert_eq!(back.code, "E");
}

#[test]
fn known_vector_one_char_code() {
    let raw: Vec<u8> = (0u8..32).collect();
    let m = Matter::from_raw(raw.clone(), "B").unwrap();
    assert_eq!(m.qb64.unwrap(), "BAABAgMEBQYHCAkKCwwNDg8QERITFBUWFxgZGhscHR4f");
    assert_eq!(m.code, "B");
    assert_eq!(m.raw.unwrap(), raw);
}

#[test]
fn known_vector_four_char_code() {
    let raw: Vec<u8> = (1u8..16).collect();
    let m = Matter::from_raw(raw.clone(), "1AAH").unwrap();
    assert_eq!(m.qb64.unwrap(), "1AAHAQIDBAUGBwgJCgsMDQ4P");
    assert_eq!(
        m.qb2.unwrap(),
        vec![212u8, 0, 7, 1, 2, 3, 4, 5, 6, 7, 8, 9, 10, 11, 12, 13, 14, 15]
    );
    let back = Matter::from_qb64("1AAHAQIDBAUGBwgJCgsMDQ4P").unwrap();
    assert_eq!(back.raw.unwrap(), raw);
    assert_eq!(back.code, "1AAH");
}

#[test]
fn signature_encoding_is_one_hundred_chars() {
    assert_eq!(MatterCodex::Ed25519Sig.raw_size(), 72);
    let raw: Vec<u8> = (0u8..72).map(|i| i.wrapping_mul(7)).collect();
    let m = Matter::from_raw(raw.clone(), "0B").unwrap();
    let qb64 = m.qb64.unwrap();
    assert_eq!(qb64.len(), 100);
    assert!(qb64.starts_with("0B"));
    assert_eq!(
        qb64,
        "0BAAAAcOFRwjKjE4P0ZNVFtiaXB3foWMk5qhqK-2vcTL0tng5-71_AMKERgfJi00O0JJUFdeZWxzeoGIj5adpKuyucDHztXc4-rx"
    );
    assert_eq!(Matter::from_raw(vec![0u8; 73], "0B").unwrap_err(), Error::RawSize);
    let back = Matter::from_qb64(&qb64).unwrap();
    assert_eq!(back.raw.unwrap(), raw);
    assert_eq!(back.code, "0B");
}

#[test]
fn raw_round_trip_every_code() {
    let codes = [
        MatterCodex::Ed25519Seed,
        MatterCodex::Ed25519N,
        MatterCodex::X25519,
        MatterCodex::Ed25519,
        MatterCodex::Blake3_256,
        MatterCodex::X25519Private,
        MatterCodex::X25519CipherSeed,
        MatterCodex::X25519CipherSalt,
        MatterCodex::Salt128,
        MatterCodex::Ed25519Sig,
    ];
    for c in codes {
        let n = c.raw_size();
        let raw: Vec<u8> = (0..n).map(|i| (i * 31 + 5) as u8).collect();
        let m = Matter::from_raw(raw.clone(), c.code()).unwrap();
        let qb64b = m.qb64b.clone().unwrap();
        assert_eq!(qb64b.len(), c.sizes().fs);
        let mut buf = qb64b.clone();
        let back = Matter::from_qb64b(&mut buf, false).unwrap();
        assert_eq!(back.raw.unwrap(), raw);
        assert_eq!(back.code, c.code());
        assert_eq!(buf, qb64b);
        let qb2 = to_qb2(&qb64b).unwrap();
        assert_eq!(qb2, m.qb2.clone().unwrap());
        assert_eq!(to_qb64(&qb2).unwrap(), qb64b);
        assert_eq!(to_qb2(&to_qb64(&qb2).unwrap()).unwrap(), qb2);
    }
}

#[test]
fn raw_sizes_of_codes() {
    assert_eq!(MatterCodex::Blake3_256.raw_size(), 32);
    assert_eq!(MatterCodex::X25519CipherSeed.raw_size(), 92);
    assert_eq!(MatterCodex::X25519CipherSalt.raw_size(), 15);
    assert_eq!(MatterCodex::Salt128.raw_size(), 64);
}

#[test]
fn truncated_input_is_shortage() {
    let m = Matter::from_raw(vec![9u8; 32], "D").unwrap();
    let q = m.qb64b.unwrap();
    for k in 0..q.len() {
        let mut buf = q[..k].to_vec();
        assert_eq!(Matter::from_qb64b(&mut buf, true).unwrap_err(), Error::Shortage);
        assert_eq!(buf, q[..k].to_vec());
    }
}

#[test]
fn strip_consumes_one_primitive() {
    let a = Matter::from_raw(vec![1u8; 32], "D").unwrap().qb64b.unwrap();
    let b = Matter::from_raw(vec![2u8; 64], "0A").unwrap().qb64b.unwrap();
    let mut buf = a.clone();
    buf.extend_from_slice(&b);
    let whole = buf.clone();

    let first = Matter::from_qb64b(&mut buf, false).unwrap();
    assert_eq!(first.raw.unwrap(), vec![1u8; 32]);
    assert_eq!(buf, whole);

    let first = Matter::from_qb64b(&mut buf, true).unwrap();
    assert_eq!(first.qb64b.unwrap(), a);
    assert_eq!(first.strip, Some(true));
    assert_eq!(buf, b);

    let second = Matter::from_qb64b(&mut buf, true).unwrap();
    assert_eq!(second.raw.unwrap(), vec![2u8; 64]);
    assert_eq!(second.code, "0A");
    assert!(buf.is_empty());
}

#[test]
fn unknown_code_is_refused() {
    assert_eq!(Matter::from_raw(vec![0u8; 32], "Z").unwrap_err(), Error::UnknownCode);
    assert_eq!(Matter::from_qb64(&format!("Z{}", "A".repeat(43))).unwrap_err(), Error::UnknownCode);
    assert_eq!(sizage("0C").unwrap_err(), Error::UnknownCode);
}

#[test]
fn wrong_raw_length_is_refused() {
    assert_eq!(Matter::from_raw(vec![0u8; 31], "E").unwrap_err(), Error::RawSize);
    assert_eq!(Matter::from_raw(vec![0u8; 33], "E").unwrap_err(), Error::RawSize);
    assert_eq!(Matter::from_raw(vec![0u8; 65], "0A").unwrap_err(), Error::RawSize);
    assert_eq!(Matter::from_raw(vec![0u8; 16], "1AAH").unwrap_err(), Error::RawSize);
}

#[test]
fn unknown_hard_is_refused() {
    assert_eq!(Matter::from_qb64(&format!("-{}", "A".repeat(43))).unwrap_err(), Error::UnknownHard);
    assert_eq!(hards('-'), None);
    assert_eq!(hards('z'), Some(1));
    assert_eq!(hards('0'), Some(2));
    assert_eq!(hards('9'), Some(4));
}

#[test]
fn malformed_body_is_refused() {
    assert_eq!(Matter::from_qb64(&format!("E{}=", "A".repeat(42))).unwrap_err(), Error::InvalidPayload);
    // The first body digit of a one-character code must leave the pad bits zero.
    assert_eq!(Matter::from_qb64(&format!("E_{}", "A".repeat(42))).unwrap_err(), Error::InvalidPayload);
    // The header of the signature code is filled up with zero digits.
    let sig = Matter::from_raw(vec![5u8; 72], "0B").unwrap().qb64.unwrap();
    let bad = format!("0BAB{}", &sig[4..]);
    assert_eq!(Matter::from_qb64(&bad).unwrap_err(), Error::InvalidPayload);
    assert_eq!(to_qb2(b"AAA").unwrap_err(), Error::InvalidPayload);
    assert_eq!(to_qb2(b"AA*A").unwrap_err(), Error::InvalidPayload);
    assert_eq!(to_qb64(&[1u8, 2]).unwrap_err(), Error::InvalidPayload);
}

#[test]
fn sizage_by_code_string() {
    assert_eq!(sizage("0B").unwrap(), Sizage::new(4, 0, 100, 0));
    assert_eq!(sizage("E").unwrap(), Sizage::new(1, 0, 44, 0));
    assert_eq!(MatterCodex::from_code(b"1AAH"), Some(MatterCodex::X25519CipherSalt));
    assert_eq!(MatterCodex::from_code(b"1AA"), None);
}

#[test]
fn base64_groups() {
    assert_eq!(encode(&[0xff, 0xff, 0xff]), b"____".to_vec());
    assert_eq!(encode(&[0xfb, 0xef, 0xbe]), b"----".to_vec());
    assert_eq!(decode(b"AAAB"), vec![0u8, 0, 1]);
    assert_eq!(decode(b"TWFu"), b"Man".to_vec());
    assert_eq!(encode(b"Man"), b"TWFu".to_vec());
    assert_eq!(to_qb64(&[]).unwrap(), Vec::<u8>::new());
}

#[test]
fn general_error_message() {
    assert_eq!(GeneralError::Message("bad".to_string()).message(), "bad");
    assert_eq!(GeneralError::MatterError.message(), "matter error");
}

#[test]
fn binary_stream_parses_and_strips() {
    let a = Matter::from_raw((1u8..16).collect(), "1AAH").unwrap();
    let b = Matter::from_raw(vec![3u8; 32], "E").unwrap();
    let qa = a.qb2.clone().unwrap();
    let qb = b.qb2.clone().unwrap();
    assert_eq!(qa.len(), 18);
    assert_eq!(qb.len(), 33);
    let mut buf = qa.clone();
    buf.extend_from_slice(&qb);
    let whole = buf.clone();

    let first = Matter::from_qb2(&mut buf, false).unwrap();
    assert_eq!(first.raw.unwrap(), (1u8..16).collect::<Vec<u8>>());
    assert_eq!(first.qb64.unwrap(), "1AAHAQIDBAUGBwgJCgsMDQ4P");
    assert_eq!(buf, whole);

    let first = Matter::from_qb2(&mut buf, true).unwrap();
    assert_eq!(first.qb2.unwrap(), qa);
    assert_eq!(buf, qb);

    let second = Matter::from_qb2(&mut buf, true).unwrap();
    assert_eq!(second.raw.unwrap(), vec![3u8; 32]);
    assert_eq!(second.code, "E");
    assert!(buf.is_empty());
}

#[test]
fn truncated_binary_is_shortage() {
    let q = Matter::from_raw(vec![4u8; 64], "0A").unwrap().qb2.unwrap();
    for k in 0..q.len() {
        let mut buf = q[..k].to_vec();
        assert_eq!(Matter::from_qb2(&mut buf, true).unwrap_err(), Error::Shortage);
        assert_eq!(buf.len(), k);
    }
}

#[test]
fn new_frames_raw_bytes() {
    let mut qb64b: Vec<u8> = Vec::new();
    let mut qb2: Vec<u8> = Vec::new();
    let m = Matter::new(vec![0u8; 32], "E", &mut qb64b, "", &mut qb2, false).unwrap();
    let qb64 = m.qb64.unwrap();
    assert_eq!(qb64.len(), 44);
    assert!(qb64.starts_with('E'));
    assert_eq!(m.raw.unwrap(), vec![0u8; 32]);
    assert_eq!(m.code, "E");

    let sig = Matter::new(vec![7u8; 72], "0B", &mut qb64b, "", &mut qb2, true).unwrap();
    let text = sig.qb64.unwrap();
    assert_eq!(text.len(), 100);
    assert!(text.starts_with("0B"));
    assert_eq!(sig.strip, Some(true));
}

#[test]
fn new_refuses_bad_code_or_length() {
    let mut qb64b: Vec<u8> = Vec::new();
    let mut qb2: Vec<u8> = Vec::new();
    assert_eq!(
        Matter::new(vec![0u8; 32], "Z", &mut qb64b, "", &mut qb2, false).unwrap_err(),
        Error::UnknownCode
    );
    assert_eq!(
        Matter::new(vec![0u8; 31], "E", &mut qb64b, "", &mut qb2, false).unwrap_err(),
        Error::RawSize
    );
    assert_eq!(
        Matter::new(Vec::new(), "E", &mut qb64b, "", &mut qb2, false).unwrap_err(),
        Error::RawSize
    );
}

#[test]
fn new_reads_each_encoding() {
    let mut none: Vec<u8> = Vec::new();
    let mut none2: Vec<u8> = Vec::new();
    let made = Matter::new(vec![0u8; 32], "E", &mut none, "", &mut none2, false).unwrap();
    let text = made.qb64.unwrap();
    let bin = made.qb2.unwrap();

    let from_text = Matter::new(Vec::new(), "", &mut none, &text, &mut none2, false).unwrap();
    assert_eq!(from_text.raw.unwrap(), vec![0u8; 32]);
    assert_eq!(from_text.code, "E");

    let mut bin_buf = bin.clone();
    let from_bin = Matter::new(Vec::new(), "", &mut none, "", &mut bin_buf, true).unwrap();
    assert_eq!(from_bin.raw.unwrap(), vec![0u8; 32]);
    assert_eq!(from_bin.qb64.unwrap(), text);
    assert!(bin_buf.is_empty());

    let mut short = text.as_bytes()[..43].to_vec();
    assert_eq!(
        Matter::new(Vec::new(), "", &mut short, "", &mut none2, true).unwrap_err(),
        Error::Shortage
    );
    assert_eq!(short.len(), 43);

    let mut bad = b"#AAA".to_vec();
    assert_eq!(
        Matter::new(Vec::new(), "", &mut bad, "", &mut none2, true).unwrap_err(),
        Error::UnknownHard
    );
}

#[test]
fn new_strips_one_primitive_from_a_stream() {
    let mut none: Vec<u8> = Vec::new();
    let mut none2: Vec<u8> = Vec::new();
    let a = Matter::new(vec![1u8; 32], "D", &mut none, "", &mut none2, false).unwrap().qb64b.unwrap();
    let b = Matter::new(vec![2u8; 64], "0A", &mut none, "", &mut none2, false).unwrap().qb64b.unwrap();
    let mut buf = a.clone();
    buf.extend_from_slice(&b);
    let whole = buf.clone();

    let kept = Matter::new(Vec::new(), "", &mut buf, "", &mut none2, false).unwrap();
    assert_eq!(kept.raw.unwrap(), vec![1u8; 32]);
    assert_eq!(buf, whole);

    let first = Matter::new(Vec::new(), "", &mut buf, "", &mut none2, true).unwrap();
    assert_eq!(first.code, "D");
    assert_eq!(first.qb64b.unwrap(), a);
    assert_eq!(buf, b);
}
