//! Turning the bytes of a statement into text: UTF-8 when they are valid
//! UTF-8, Windows-1252 (which never fails) when they are not.
use vstd::prelude::*;
use vstd::utf8::{decode_utf8, valid_utf8};

use crate::text::{push_char, push_str};

verus! {

/// Windows-1252 agrees with Latin-1 except in 0x80-0x9F, where it places
/// typographic quotes and the euro sign.
pub open spec fn windows_1252(byte: u8) -> char {
    if byte == 0x80 {
        '\u{20ac}'
    } else if byte == 0x82 {
        '\u{201a}'
    } else if byte == 0x83 {
        '\u{0192}'
    } else if byte == 0x84 {
        '\u{201e}'
    } else if byte == 0x85 {
        '\u{2026}'
    } else if byte == 0x86 {
        '\u{2020}'
    } else if byte == 0x87 {
        '\u{2021}'
    } else if byte == 0x88 {
        '\u{02c6}'
    } else if byte == 0x89 {
        '\u{2030}'
    } else if byte == 0x8a {
        '\u{0160}'
    } else if byte == 0x8b {
        '\u{2039}'
    } else if byte == 0x8c {
        '\u{0152}'
    } else if byte == 0x8e {
        '\u{017d}'
    } else if byte == 0x91 {
        '\u{2018}'
    } else if byte == 0x92 {
        '\u{2019}'
    } else if byte == 0x93 {
        '\u{201c}'
    } else if byte == 0x94 {
        '\u{201d}'
    } else if byte == 0x95 {
        '\u{2022}'
    } else if byte == 0x96 {
        '\u{2013}'
    } else if byte == 0x97 {
        '\u{2014}'
    } else if byte == 0x98 {
        '\u{02dc}'
    } else if byte == 0x99 {
        '\u{2122}'
    } else if byte == 0x9a {
        '\u{0161}'
    } else if byte == 0x9b {
        '\u{203a}'
    } else if byte == 0x9c {
        '\u{0153}'
    } else if byte == 0x9e {
        '\u{017e}'
    } else if byte == 0x9f {
        '\u{0178}'
    } else {
        byte as char
    }
}

/// Every byte read as a Windows-1252 character.
pub open spec fn windows_1252_text(bytes: Seq<u8>) -> Seq<char> {
    bytes.map_values(|b: u8| windows_1252(b))
}

/// `bytes` without a leading UTF-8 byte order mark.
pub open spec fn without_bom(bytes: Seq<u8>) -> Seq<u8> {
    if bytes.len() >= 3 && bytes[0] == 0xef && bytes[1] == 0xbb && bytes[2] == 0xbf {
        bytes.subrange(3, bytes.len() as int)
    } else {
        bytes
    }
}

/// The text of a statement file.
pub open spec fn decoded_text(bytes: Seq<u8>) -> Seq<char> {
    let b = without_bom(bytes);
    if valid_utf8(b) {
        decode_utf8(b)
    } else {
        windows_1252_text(b)
    }
}

/// `std::str::from_utf8`: the text the bytes encode when they are valid
/// UTF-8, nothing otherwise.
#[verifier::external_body]
fn utf8_text(bytes: &[u8]) -> (r: Option<String>)
    ensures
        r is Some <==> valid_utf8(bytes@),
        r matches Some(s) ==> s@ == decode_utf8(bytes@),
{
    std::str::from_utf8(bytes).ok().map(|text| text.to_string())
}

fn windows_1252_char(byte: u8) -> (c: char)
    ensures
        c == windows_1252(byte),
{
    match byte {
        0x80 => '\u{20ac}',
        0x82 => '\u{201a}',
        0x83 => '\u{0192}',
        0x84 => '\u{201e}',
        0x85 => '\u{2026}',
        0x86 => '\u{2020}',
        0x87 => '\u{2021}',
        0x88 => '\u{02c6}',
        0x89 => '\u{2030}',
        0x8a => '\u{0160}',
        0x8b => '\u{2039}',
        0x8c => '\u{0152}',
        0x8e => '\u{017d}',
        0x91 => '\u{2018}',
        0x92 => '\u{2019}',
        0x93 => '\u{201c}',
        0x94 => '\u{201d}',
        0x95 => '\u{2022}',
        0x96 => '\u{2013}',
        0x97 => '\u{2014}',
        0x98 => '\u{02dc}',
        0x99 => '\u{2122}',
        0x9a => '\u{0161}',
        0x9b => '\u{203a}',
        0x9c => '\u{0153}',
        0x9e => '\u{017e}',
        0x9f => '\u{0178}',
        other => other as char,
    }
}

/// The bytes after a leading byte order mark, if there is one.
fn strip_bom(bytes: &[u8]) -> (r: Vec<u8>)
    ensures
        r@ == without_bom(bytes@),
{
    let start: usize = if bytes.len() >= 3 && bytes[0] == 0xef && bytes[1] == 0xbb && bytes[2] == 0xbf {
        3
    } else {
        0
    };
    let mut out: Vec<u8> = Vec::new();
    let mut i: usize = start;
    while i < bytes.len()
        invariant
            start <= i <= bytes.len(),
            out@ == bytes@.subrange(start as int, i as int),
        decreases bytes.len() - i,
    {
        out.push(bytes[i]);
        assert(bytes@.subrange(start as int, i + 1) =~= bytes@.subrange(start as int, i as int).push(bytes@[i as int]));
        i = i + 1;
    }
    assert(bytes@.subrange(0, bytes@.len() as int) =~= bytes@);
    out
}

/// Converts the bytes of a statement into text. Many Spanish banks still
/// export in Windows-1252, so bytes that are not valid UTF-8 are read as
/// Windows-1252, which assigns a character to every byte.
pub fn decode(bytes: &[u8]) -> (r: String)
    ensures
        r@ == decoded_text(bytes@),
{
    let stripped = strip_bom(bytes);
    match utf8_text(stripped.as_slice()) {
        Some(text) => text,
        None => {
            let mut out = String::new();
            let mut i: usize = 0;
            while i < stripped.len()
                invariant
                    i <= stripped.len(),
                    out@ == windows_1252_text(stripped@.take(i as int)),
                decreases stripped.len() - i,
            {
                push_char(&mut out, windows_1252_char(stripped[i]));
                assert(windows_1252_text(stripped@.take(i + 1)) =~= windows_1252_text(
                    stripped@.take(i as int),
                ).push(windows_1252(stripped@[i as int])));
                i = i + 1;
            }
            assert(stripped@.take(stripped.len() as int) =~= stripped@);
            out
        },
    }
}

/// Whether the bytes open a spreadsheet: `.xlsx` and `.ods` are ZIP files,
/// `.xls` is an Office 97 compound file; both are known by their first bytes.
pub open spec fn is_spreadsheet(bytes: Seq<u8>) -> bool {
    (bytes.len() >= 4 && bytes[0] == 0x50 && bytes[1] == 0x4b && bytes[2] == 0x03 && bytes[3] == 0x04)
    || (bytes.len() >= 8 && bytes[0] == 0xd0 && bytes[1] == 0xcf && bytes[2] == 0x11 && bytes[3] == 0xe0
        && bytes[4] == 0xa1 && bytes[5] == 0xb1 && bytes[6] == 0x1a && bytes[7] == 0xe1)
}

/// Whether the format of a statement is a spreadsheet, decided by content
/// and not by extension.
pub fn is_excel(bytes: &[u8]) -> (r: bool)
    ensures
        r == is_spreadsheet(bytes@),
{
    let zip = bytes.len() >= 4 && bytes[0] == 0x50 && bytes[1] == 0x4b && bytes[2] == 0x03 && bytes[3] == 0x04;
    let compound = bytes.len() >= 8 && bytes[0] == 0xd0 && bytes[1] == 0xcf && bytes[2] == 0x11 && bytes[3] == 0xe0
        && bytes[4] == 0xa1 && bytes[5] == 0xb1 && bytes[6] == 0x1a && bytes[7] == 0xe1;
    zip || compound
}

} // verus!
