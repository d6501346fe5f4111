//! Turning the raw bytes of an `.xer` file into text.
//!
//! Primavera P6 usually exports Windows-1252 (ANSI), but some files are
//! UTF-8. A byte-order mark, if present, decides the encoding (and is
//! dropped); otherwise the bytes are read as UTF-8 when they are valid UTF-8
//! and as Windows-1252 when they are not, so that accented names and symbols
//! are preserved instead of being corrupted.

use vstd::prelude::*;
use vstd::utf8::{decode_utf8, valid_utf8};
use crate::parse::{parse_tables, xer_tables, tables_view, Table};
use crate::text::{chars_of, string_from_range};

verus! {

/// Guard for the decoders of `encoding_rs`, which panic when the size of
/// their output buffer overflows `usize` (about three bytes out per byte in).
pub open spec fn decodable_len(n: nat) -> bool {
    n <= usize::MAX / 8
}

/// What `encoding_rs` makes of bytes in UTF-8, malformed sequences replaced
/// by U+FFFD (WHATWG "UTF-8 decode without BOM").
pub uninterp spec fn utf8_lossy_text(bytes: Seq<u8>) -> Seq<char>;

/// What `encoding_rs` makes of bytes in UTF-16LE, malformed sequences
/// replaced by U+FFFD.
pub uninterp spec fn utf16le_text(bytes: Seq<u8>) -> Seq<char>;

/// What `encoding_rs` makes of bytes in UTF-16BE, malformed sequences
/// replaced by U+FFFD.
pub uninterp spec fn utf16be_text(bytes: Seq<u8>) -> Seq<char>;

/// The Windows-1252 character of byte `b`, as the WHATWG index (and the
/// table of `encoding_rs`) gives it: bytes below 0x80 and from 0xA0 on are
/// the code point of the same value; 0x80..0x9F follow the table below
/// (five of them map to the C1 control of the same value).
pub open spec fn windows_1252_char(b: u8) -> char {
    let u: u32 = if b < 0x80 || b >= 0xA0 {
        b as u32
    } else if b == 0x80 {
        0x20AC
    } else if b == 0x82 {
        0x201A
    } else if b == 0x83 {
        0x0192
    } else if b == 0x84 {
        0x201E
    } else if b == 0x85 {
        0x2026
    } else if b == 0x86 {
        0x2020
    } else if b == 0x87 {
        0x2021
    } else if b == 0x88 {
        0x02C6
    } else if b == 0x89 {
        0x2030
    } else if b == 0x8A {
        0x0160
    } else if b == 0x8B {
        0x2039
    } else if b == 0x8C {
        0x0152
    } else if b == 0x8E {
        0x017D
    } else if b == 0x91 {
        0x2018
    } else if b == 0x92 {
        0x2019
    } else if b == 0x93 {
        0x201C
    } else if b == 0x94 {
        0x201D
    } else if b == 0x95 {
        0x2022
    } else if b == 0x96 {
        0x2013
    } else if b == 0x97 {
        0x2014
    } else if b == 0x98 {
        0x02DC
    } else if b == 0x99 {
        0x2122
    } else if b == 0x9A {
        0x0161
    } else if b == 0x9B {
        0x203A
    } else if b == 0x9C {
        0x0153
    } else if b == 0x9E {
        0x017E
    } else if b == 0x9F {
        0x0178
    } else {
        // 0x81, 0x8D, 0x8F, 0x90, 0x9D
        b as u32
    };
    u as char
}

/// Windows-1252 text: one character per byte.
pub open spec fn windows_1252_text(bytes: Seq<u8>) -> Seq<char> {
    bytes.map_values(|b: u8| windows_1252_char(b))
}

/// A byte-order mark at the start of a byte sequence.
#[derive(PartialEq, Eq, Structural, Clone, Copy, Debug)]
pub enum Bom {
    /// `EF BB BF`
    Utf8,
    /// `FF FE`
    Utf16Le,
    /// `FE FF`
    Utf16Be,
}

/// The byte-order mark that `bytes` starts with, checked in the order of
/// `encoding_rs::Encoding::for_bom`.
pub open spec fn bom_of(bytes: Seq<u8>) -> Option<Bom> {
    if bytes.len() >= 3 && bytes[0] == 0xEF && bytes[1] == 0xBB && bytes[2] == 0xBF {
        Some(Bom::Utf8)
    } else if bytes.len() >= 2 && bytes[0] == 0xFF && bytes[1] == 0xFE {
        Some(Bom::Utf16Le)
    } else if bytes.len() >= 2 && bytes[0] == 0xFE && bytes[1] == 0xFF {
        Some(Bom::Utf16Be)
    } else {
        None
    }
}

/// The text of an `.xer` file: a byte-order mark picks the encoding and is
/// dropped (valid UTF-8 after a UTF-8 mark decodes to itself); without one,
/// valid UTF-8 is read as UTF-8 and anything else as Windows-1252.
pub open spec fn xer_text(bytes: Seq<u8>) -> Seq<char> {
    match bom_of(bytes) {
        Some(Bom::Utf8) => if valid_utf8(bytes.skip(3)) {
            decode_utf8(bytes.skip(3))
        } else {
            utf8_lossy_text(bytes.skip(3))
        },
        Some(Bom::Utf16Le) => utf16le_text(bytes.skip(2)),
        Some(Bom::Utf16Be) => utf16be_text(bytes.skip(2)),
        None => if valid_utf8(bytes) {
            decode_utf8(bytes)
        } else {
            windows_1252_text(bytes)
        },
    }
}

/// The byte-order mark that `bytes` starts with, if any, tested as
/// `encoding_rs::Encoding::for_bom` tests it.
pub fn detect_bom(bytes: &[u8]) -> (r: Option<Bom>)
    ensures
        r == bom_of(bytes@),
{
    let n = bytes.len();
    if n >= 3 && bytes[0] == 0xEF && bytes[1] == 0xBB && bytes[2] == 0xBF {
        Some(Bom::Utf8)
    } else if n >= 2 && bytes[0] == 0xFF && bytes[1] == 0xFE {
        Some(Bom::Utf16Le)
    } else if n >= 2 && bytes[0] == 0xFE && bytes[1] == 0xFF {
        Some(Bom::Utf16Be)
    } else {
        None
    }
}

/// `encoding_rs::UTF_8.decode_without_bom_handling`: the result is named by
/// [`utf8_lossy_text`], and on valid UTF-8 it is the decoded text (the
/// decoder then borrows the input as it is).
#[verifier::external_body]
fn utf8_decode(bytes: &[u8]) -> (r: String)
    requires
        decodable_len(bytes@.len()),
    ensures
        r@ == utf8_lossy_text(bytes@),
        valid_utf8(bytes@) ==> r@ == decode_utf8(bytes@),
{
    encoding_rs::UTF_8.decode_without_bom_handling(bytes).0.into_owned()
}

/// `encoding_rs::UTF_16LE.decode_without_bom_handling`: the result is named
/// by [`utf16le_text`].
#[verifier::external_body]
fn utf16le_decode(bytes: &[u8]) -> (r: String)
    requires
        decodable_len(bytes@.len()),
    ensures
        r@ == utf16le_text(bytes@),
{
    encoding_rs::UTF_16LE.decode_without_bom_handling(bytes).0.into_owned()
}

/// `encoding_rs::UTF_16BE.decode_without_bom_handling`: the result is named
/// by [`utf16be_text`].
#[verifier::external_body]
fn utf16be_decode(bytes: &[u8]) -> (r: String)
    requires
        decodable_len(bytes@.len()),
    ensures
        r@ == utf16be_text(bytes@),
{
    encoding_rs::UTF_16BE.decode_without_bom_handling(bytes).0.into_owned()
}

/// `encoding_rs::WINDOWS_1252.decode_without_bom_handling`: every byte
/// becomes the character of the Windows-1252 table (no byte of that table is
/// unmapped, so nothing is replaced).
#[verifier::external_body]
fn windows_1252_decode(bytes: &[u8]) -> (r: String)
    requires
        decodable_len(bytes@.len()),
    ensures
        r@ == windows_1252_text(bytes@),
{
    encoding_rs::WINDOWS_1252.decode_without_bom_handling(bytes).0.into_owned()
}

/// `std::str::from_utf8`: succeeds exactly on valid UTF-8, with the decoded
/// text.
#[verifier::external_body]
fn utf8_str(bytes: &[u8]) -> (r: Option<&str>)
    ensures
        r is Some <==> valid_utf8(bytes@),
        r matches Some(s) ==> s@ == decode_utf8(bytes@),
{
    std::str::from_utf8(bytes).ok()
}

/// Decodes raw `.xer` bytes into text. A byte-order mark is honoured;
/// otherwise UTF-8 is used when the bytes are valid UTF-8 and Windows-1252
/// when they are not.
pub fn decode_xer(bytes: &[u8]) -> (text: String)
    requires
        decodable_len(bytes@.len()),
    ensures
        text@ == xer_text(bytes@),
        bom_of(bytes@) == Some(Bom::Utf8) && valid_utf8(bytes@.skip(3)) ==> text@ == decode_utf8(
            bytes@.skip(3),
        ),
{
    let n = bytes.len();
    match detect_bom(bytes) {
        Some(Bom::Utf8) => {
            let rest = &bytes[3..n];
            assert(rest@ =~= bytes@.skip(3));
            utf8_decode(rest)
        },
        Some(Bom::Utf16Le) => {
            let rest = &bytes[2..n];
            assert(rest@ =~= bytes@.skip(2));
            utf16le_decode(rest)
        },
        Some(Bom::Utf16Be) => {
            let rest = &bytes[2..n];
            assert(rest@ =~= bytes@.skip(2));
            utf16be_decode(rest)
        },
        None => match utf8_str(bytes) {
            Some(s) => s.to_owned(),
            None => windows_1252_decode(bytes),
        },
    }
}

/// The byte-order mark character, U+FEFF.
pub open spec fn bom_char() -> char {
    '\u{feff}'
}

/// `text` without one leading U+FEFF, if it has one.
pub open spec fn without_bom_char(text: Seq<char>) -> Seq<char> {
    if text.len() > 0 && text[0] == bom_char() {
        text.skip(1)
    } else {
        text
    }
}

/// Removes one leading byte-order mark character, so that the marker of the
/// first line is recognized.
pub fn strip_bom_char(text: &str) -> (r: String)
    ensures
        r@ == without_bom_char(text@),
{
    let chars = chars_of(text);
    if chars.len() > 0 && chars[0] == '\u{feff}' {
        let r = string_from_range(&chars, 1, chars.len());
        assert(chars@.subrange(1, chars@.len() as int) =~= text@.skip(1));
        r
    } else {
        let r = string_from_range(&chars, 0, chars.len());
        assert(chars@.subrange(0, chars@.len() as int) =~= text@);
        r
    }
}

/// The tables of the `.xer` file made of `bytes`: decoded, stripped of a
/// leading byte-order mark character, then split into tables.
pub fn parse_xer_bytes(bytes: &[u8]) -> (tables: Vec<Table>)
    requires
        decodable_len(bytes@.len()),
    ensures
        tables_view(tables@) == xer_tables(without_bom_char(xer_text(bytes@))),
{
    let text = decode_xer(bytes);
    let content = strip_bom_char(text.as_str());
    parse_tables(content.as_str())
}


/// Windows-1252 text keeps every byte: one character per byte, never the
/// replacement character, and the bytes of ASCII and Latin-1 (below 0x80,
/// and from 0xA0 on, such as 0xA3, the pound sign) keep their code point.
pub proof fn law_windows_1252_keeps_every_byte(bytes: Seq<u8>)
    ensures
        windows_1252_text(bytes).len() == bytes.len(),
        forall|i: int| 0 <= i < bytes.len() ==> #[trigger] windows_1252_text(bytes)[i] != '\u{FFFD}',
        forall|i: int|
            0 <= i < bytes.len() && (bytes[i] < 0x80 || bytes[i] >= 0xA0) ==> (
            #[trigger] windows_1252_text(bytes)[i]) as u32 == bytes[i] as u32,
{
    assert forall|i: int| 0 <= i < bytes.len() implies #[trigger] windows_1252_text(bytes)[i]
        != '\u{FFFD}' by {
        let b = bytes[i];
        assert(windows_1252_text(bytes)[i] == windows_1252_char(b));
        assert((windows_1252_char(b) as u32) != 0xFFFD);
    }
}

/// Bytes without a byte-order mark that are not valid UTF-8 are read as
/// Windows-1252, and valid UTF-8 is read as UTF-8.
pub proof fn law_fallback_encoding(bytes: Seq<u8>)
    requires
        bom_of(bytes) is None,
    ensures
        valid_utf8(bytes) ==> xer_text(bytes) == decode_utf8(bytes),
        !valid_utf8(bytes) ==> xer_text(bytes) == windows_1252_text(bytes),
{
}

} // verus!
