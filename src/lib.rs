//! Self-framing codec for cryptographic primitives: a code table, the
//! sizes each code fixes, and conversions between raw bytes, base-64
//! text (qb64) and packed binary (qb2).
pub mod b64;
pub mod codex;
pub mod error;
pub mod matter;
pub mod sizage;
pub mod theorems;
