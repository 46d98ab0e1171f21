use vstd::prelude::*;

use vstd::string::StringSliceAdditionalSpecFns;

use crate::error::Error;
use crate::sizage::Sizage;

verus! {

/// The kinds of primitive that the codec frames, each with its own code.
#[derive(Clone, Copy, Debug, PartialEq, Eq, Structural)]
pub enum MatterCodex {
    Ed25519Seed,
    Ed25519N,
    X25519,
    Ed25519,
    Blake3_256,
    X25519Private,
    X25519CipherSeed,
    X25519CipherSalt,
    Salt128,
    Ed25519Sig,
}

/// The code string of a kind.
pub open spec fn code_of(c: MatterCodex) -> Seq<char> {
    match c {
        MatterCodex::Ed25519Seed => seq!['A'],
        MatterCodex::Ed25519N => seq!['B'],
        MatterCodex::X25519 => seq!['C'],
        MatterCodex::Ed25519 => seq!['D'],
        MatterCodex::Blake3_256 => seq!['E'],
        MatterCodex::X25519Private => seq!['O'],
        MatterCodex::X25519CipherSeed => seq!['P'],
        MatterCodex::X25519CipherSalt => seq!['1', 'A', 'A', 'H'],
        MatterCodex::Salt128 => seq!['0', 'A'],
        MatterCodex::Ed25519Sig => seq!['0', 'B'],
    }
}

/// The bytes of an ASCII character sequence.
pub open spec fn ascii_bytes(s: Seq<char>) -> Seq<u8> {
    s.map_values(|ch: char| ch as u8)
}

/// The code of a kind as bytes of text.
pub open spec fn code_bytes_of(c: MatterCodex) -> Seq<u8> {
    ascii_bytes(code_of(c))
}

/// The sizes that a kind's code fixes.
pub open spec fn sizage_of(c: MatterCodex) -> Sizage {
    match c {
        MatterCodex::Ed25519Seed => Sizage { hs: 1, ss: 0, fs: 44, ls: 0 },
        MatterCodex::Ed25519N => Sizage { hs: 1, ss: 0, fs: 44, ls: 0 },
        MatterCodex::X25519 => Sizage { hs: 1, ss: 0, fs: 44, ls: 0 },
        MatterCodex::Ed25519 => Sizage { hs: 1, ss: 0, fs: 44, ls: 0 },
        MatterCodex::Blake3_256 => Sizage { hs: 1, ss: 0, fs: 44, ls: 0 },
        MatterCodex::X25519Private => Sizage { hs: 1, ss: 0, fs: 44, ls: 0 },
        MatterCodex::X25519CipherSeed => Sizage { hs: 1, ss: 0, fs: 124, ls: 0 },
        MatterCodex::X25519CipherSalt => Sizage { hs: 4, ss: 0, fs: 24, ls: 0 },
        MatterCodex::Salt128 => Sizage { hs: 2, ss: 0, fs: 88, ls: 0 },
        MatterCodex::Ed25519Sig => Sizage { hs: 4, ss: 0, fs: 100, ls: 0 },
    }
}

/// The kind whose code is the text `t`, if there is one.
pub open spec fn codex_of(t: Seq<u8>) -> Option<MatterCodex> {
    if exists|c: MatterCodex| code_bytes_of(c) == t {
        Some(choose|c: MatterCodex| code_bytes_of(c) == t)
    } else {
        None
    }
}

/// Header length that a leading character announces: one character for a
/// letter, two or four for a digit.
pub open spec fn hard_size_of(ch: char) -> Option<u16> {
    if ('A' <= ch && ch <= 'Z') || ('a' <= ch && ch <= 'z') {
        Some(1)
    } else if ch == '0' || ch == '4' || ch == '5' || ch == '6' {
        Some(2)
    } else if ch == '1' || ch == '2' || ch == '3' || ch == '7' || ch == '8' || ch == '9' {
        Some(4)
    } else {
        None
    }
}

/// Distinct kinds have distinct codes.
pub proof fn lemma_code_injective(a: MatterCodex, b: MatterCodex)
    ensures
        code_bytes_of(a) == code_bytes_of(b) ==> a == b,
{
    if code_bytes_of(a) == code_bytes_of(b) {
        assert(code_bytes_of(a).len() == code_bytes_of(b).len());
        assert(code_bytes_of(a)[0] == code_bytes_of(b)[0]);
        if code_bytes_of(a).len() > 1 {
            assert(code_bytes_of(a)[1] == code_bytes_of(b)[1]);
        }
    }
}

/// A kind is found again from its own code.
pub proof fn lemma_codex_of_code(c: MatterCodex)
    ensures
        codex_of(code_bytes_of(c)) == Some(c),
{
    let t = code_bytes_of(c);
    assert(exists|x: MatterCodex| code_bytes_of(x) == t);
    let d = choose|x: MatterCodex| code_bytes_of(x) == t;
    lemma_code_injective(c, d);
}

impl MatterCodex {
    /// The code string of this kind.
    pub fn code(&self) -> (r: &'static str)
        ensures
            r@ == code_of(*self),
    {
        match self {
            MatterCodex::Ed25519Seed => {
                proof { reveal_strlit("A"); }
                "A"
            },
            MatterCodex::Ed25519N => {
                proof { reveal_strlit("B"); }
                "B"
            },
            MatterCodex::X25519 => {
                proof { reveal_strlit("C"); }
                "C"
            },
            MatterCodex::Ed25519 => {
                proof { reveal_strlit("D"); }
                "D"
            },
            MatterCodex::Blake3_256 => {
                proof { reveal_strlit("E"); }
                "E"
            },
            MatterCodex::X25519Private => {
                proof { reveal_strlit("O"); }
                "O"
            },
            MatterCodex::X25519CipherSeed => {
                proof { reveal_strlit("P"); }
                "P"
            },
            MatterCodex::X25519CipherSalt => {
                proof { reveal_strlit("1AAH"); }
                "1AAH"
            },
            MatterCodex::Salt128 => {
                proof { reveal_strlit("0A"); }
                "0A"
            },
            MatterCodex::Ed25519Sig => {
                proof { reveal_strlit("0B"); }
                "0B"
            },
        }
    }

    /// The code of this kind as bytes of text.
    pub fn code_bytes(&self) -> (r: Vec<u8>)
        ensures
            r@ == code_bytes_of(*self),
    {
        let r = match self {
            MatterCodex::Ed25519Seed => vec!['A' as u8],
            MatterCodex::Ed25519N => vec!['B' as u8],
            MatterCodex::X25519 => vec!['C' as u8],
            MatterCodex::Ed25519 => vec!['D' as u8],
            MatterCodex::Blake3_256 => vec!['E' as u8],
            MatterCodex::X25519Private => vec!['O' as u8],
            MatterCodex::X25519CipherSeed => vec!['P' as u8],
            MatterCodex::X25519CipherSalt => vec!['1' as u8, 'A' as u8, 'A' as u8, 'H' as u8],
            MatterCodex::Salt128 => vec!['0' as u8, 'A' as u8],
            MatterCodex::Ed25519Sig => vec!['0' as u8, 'B' as u8],
        };
        assert(r@ =~= code_bytes_of(*self));
        r
    }

    /// The sizes that this kind's code fixes.
    pub fn sizes(&self) -> (r: Sizage)
        ensures
            r == sizage_of(*self),
    {
        match self {
            MatterCodex::Ed25519Seed => Sizage::new(1, 0, 44, 0),
            MatterCodex::Ed25519N => Sizage::new(1, 0, 44, 0),
            MatterCodex::X25519 => Sizage::new(1, 0, 44, 0),
            MatterCodex::Ed25519 => Sizage::new(1, 0, 44, 0),
            MatterCodex::Blake3_256 => Sizage::new(1, 0, 44, 0),
            MatterCodex::X25519Private => Sizage::new(1, 0, 44, 0),
            MatterCodex::X25519CipherSeed => Sizage::new(1, 0, 124, 0),
            MatterCodex::X25519CipherSalt => Sizage::new(4, 0, 24, 0),
            MatterCodex::Salt128 => Sizage::new(2, 0, 88, 0),
            MatterCodex::Ed25519Sig => Sizage::new(4, 0, 100, 0),
        }
    }

    /// The kind whose code is the text `t`.
    pub fn from_code(t: &[u8]) -> (r: Option<MatterCodex>)
        ensures
            r == codex_of(t@),
    {
        let r = if t.len() == 1 {
            if t[0] == 'A' as u8 {
                Some(MatterCodex::Ed25519Seed)
            } else if t[0] == 'B' as u8 {
                Some(MatterCodex::Ed25519N)
            } else if t[0] == 'C' as u8 {
                Some(MatterCodex::X25519)
            } else if t[0] == 'D' as u8 {
                Some(MatterCodex::Ed25519)
            } else if t[0] == 'E' as u8 {
                Some(MatterCodex::Blake3_256)
            } else if t[0] == 'O' as u8 {
                Some(MatterCodex::X25519Private)
            } else if t[0] == 'P' as u8 {
                Some(MatterCodex::X25519CipherSeed)
            } else {
                None
            }
        } else if t.len() == 2 && t[0] == '0' as u8 {
            if t[1] == 'A' as u8 {
                Some(MatterCodex::Salt128)
            } else if t[1] == 'B' as u8 {
                Some(MatterCodex::Ed25519Sig)
            } else {
                None
            }
        } else if t.len() == 4 && t[0] == '1' as u8 && t[1] == 'A' as u8 && t[2] == 'A' as u8 && t[3] == 'H' as u8 {
            Some(MatterCodex::X25519CipherSalt)
        } else {
            None
        };
        proof {
            match r {
                Some(c) => {
                    assert(code_bytes_of(c) =~= t@);
                    lemma_codex_of_code(c);
                },
                None => {
                    assert forall|c: MatterCodex| code_bytes_of(c) != t@ by {
                        if code_bytes_of(c) == t@ {
                            assert(code_bytes_of(c)[0] == t@[0]);
                            if t@.len() > 1 {
                                assert(code_bytes_of(c)[1] == t@[1]);
                            }
                            if t@.len() > 3 {
                                assert(code_bytes_of(c)[2] == t@[2]);
                                assert(code_bytes_of(c)[3] == t@[3]);
                            }
                        }
                    }
                },
            }
        }
        r
    }
}

/// Sizes of a code, looked up by the kind.
pub trait Size {
    type Err;

    fn size(&self) -> Result<Sizage, Self::Err>;
}

impl Size for MatterCodex {
    type Err = Error;

    fn size(&self) -> (r: Result<Sizage, Error>)
        ensures
            r == Ok::<Sizage, Error>(sizage_of(*self)),
    {
        Ok(self.sizes())
    }
}

/// Sizes of the code written as `code`; fails on a code outside the table.
pub fn sizage(code: &str) -> (r: Result<Sizage, Error>)
    ensures
        r == match codex_of(code.spec_bytes()) {
            Some(c) => Ok::<Sizage, Error>(sizage_of(c)),
            None => Err::<Sizage, Error>(Error::UnknownCode),
        },
{
    match MatterCodex::from_code(code.as_bytes()) {
        Some(c) => c.size(),
        None => Err(Error::UnknownCode),
    }
}

/// The header length announced by a leading character.
pub fn hards(ch: char) -> (r: Option<u16>)
    ensures
        r == hard_size_of(ch),
{
    if ('A' <= ch && ch <= 'Z') || ('a' <= ch && ch <= 'z') {
        Some(1)
    } else if ch == '0' || ch == '4' || ch == '5' || ch == '6' {
        Some(2)
    } else if ch == '1' || ch == '2' || ch == '3' || ch == '7' || ch == '8' || ch == '9' {
        Some(4)
    } else {
        None
    }
}

} // verus!
