//! Per-file text extraction: extension dispatch and byte decoding.
//!
//! Reading bytes from disk and calling the external content decoder are
//! the application's work; every rule about what to do with a path or
//! with the bytes read lives here.

use vstd::prelude::*;
use crate::util::text_utils::{push_char, str_eq};

verus! {

/// The record produced for every atomic file handed to the text pipeline.
pub struct FileText {
    pub file_path: String,
    pub success: bool,
    pub text: String,
    pub err: String,
}

impl FileText {
    /// The record for a successful extraction.
    pub fn done(file_path: String, text: String) -> (r: Self)
        ensures
            r.file_path == file_path,
            r.success == true,
            r.text == text,
            r.err@ == Seq::<char>::empty(),
    {
        FileText { file_path, success: true, text, err: String::new() }
    }

    /// The record for a failed extraction: the text stays empty and the
    /// message is kept.
    pub fn failed(file_path: String, err: String) -> (r: Self)
        ensures
            r.file_path == file_path,
            r.success == false,
            r.text@ == Seq::<char>::empty(),
            r.err == err,
    {
        FileText { file_path, success: false, text: String::new(), err }
    }
}

/// A path separator; both directions occur in paths handled here.
pub open spec fn is_sep(c: char) -> bool {
    c == '/' || c == '\\'
}

/// ASCII upper-case letters mapped to lower case; all else untouched.
pub open spec fn lower_char(c: char) -> char {
    if 65 <= c as u32 && c as u32 <= 90 {
        (((c as u32) + 32) as u8) as char
    } else {
        c
    }
}

pub open spec fn lower_ascii(s: Seq<char>) -> Seq<char> {
    s.map_values(|c: char| lower_char(c))
}

/// The extension of a path, scanned from its end: the characters after
/// the last `.` of the final path component, provided that `.` is not
/// the component's first character.  `None` when the component has no
/// usable dot.
pub open spec fn ext_scan(s: Seq<char>) -> Option<Seq<char>>
    decreases s.len(),
{
    if s.len() == 0 {
        None
    } else if is_sep(s[s.len() - 1]) {
        None
    } else if s[s.len() - 1] == '.' {
        if s.len() >= 2 && !is_sep(s[s.len() - 2]) {
            Some(Seq::empty())
        } else {
            None
        }
    } else {
        match ext_scan(s.drop_last()) {
            Some(e) => Some(e.push(s[s.len() - 1])),
            None => None,
        }
    }
}

/// The lower-cased extension of a path.
pub open spec fn ext_lower_of(s: Seq<char>) -> Option<Seq<char>> {
    match ext_scan(s) {
        Some(e) => Some(lower_ascii(e)),
        None => None,
    }
}

spec fn opt_ext_append(o: Option<Seq<char>>, sfx: Seq<char>) -> Option<Seq<char>> {
    match o {
        Some(e) => Some(e + sfx),
        None => None,
    }
}

fn to_lower_ascii(s: &str) -> (r: String)
    ensures
        r@ == lower_ascii(s@),
{
    let n = s.unicode_len();
    let mut out = String::new();
    let mut i: usize = 0;
    while i < n
        invariant
            n == s@.len(),
            i <= n,
            out@ =~= lower_ascii(s@.subrange(0, i as int)),
        decreases n - i,
    {
        let c = s.get_char(i);
        let u = c as u32;
        if 65 <= u && u <= 90 {
            let b: u8 = (u + 32) as u8;
            push_char(&mut out, b as char);
        } else {
            out.append(s.substring_char(i, i + 1));
        }
        proof {
            assert(s@.subrange(0, i + 1) =~= s@.subrange(0, i as int).push(s@[i as int]));
            assert(out@ =~= lower_ascii(s@.subrange(0, i + 1)));
        }
        i = i + 1;
    }
    proof {
        assert(s@.subrange(0, n as int) =~= s@);
    }
    out
}

/// The lower-cased extension of the path's final component, or `None`
/// when there is none.
pub fn get_ext_name(file_path: &str) -> (r: Option<String>)
    ensures
        match r {
            Some(e) => ext_lower_of(file_path@) == Some(e@),
            None => ext_lower_of(file_path@) is None,
        },
{
    let n = file_path.unicode_len();
    let mut i: usize = n;
    proof {
        assert(file_path@.subrange(0, n as int) =~= file_path@);
        assert(file_path@.subrange(n as int, n as int) =~= Seq::<char>::empty());
        assert(opt_ext_append(ext_scan(file_path@.subrange(0, n as int)),
            file_path@.subrange(n as int, n as int)) == ext_scan(file_path@)) by {
            match ext_scan(file_path@) {
                Some(e) => {
                    assert(e + Seq::<char>::empty() =~= e);
                },
                None => {},
            }
        }
    }
    while i > 0
        invariant
            n == file_path@.len(),
            i <= n,
            opt_ext_append(ext_scan(file_path@.subrange(0, i as int)),
                file_path@.subrange(i as int, n as int)) == ext_scan(file_path@),
        decreases i,
    {
        let ghost pre = file_path@.subrange(0, i as int);
        let c = file_path.get_char(i - 1);
        proof {
            assert(pre[pre.len() - 1] == file_path@[i - 1]);
        }
        if c == '/' || c == '\\' {
            return None;
        }
        if c == '.' {
            if i >= 2 {
                let p = file_path.get_char(i - 2);
                proof {
                    assert(pre[pre.len() - 2] == file_path@[i - 2]);
                }
                if !(p == '/' || p == '\\') {
                    proof {
                        assert(ext_scan(pre) == Some(Seq::<char>::empty()));
                        assert(Seq::<char>::empty() + file_path@.subrange(i as int, n as int)
                            =~= file_path@.subrange(i as int, n as int));
                    }
                    let ext = file_path.substring_char(i, n);
                    let lowered = to_lower_ascii(ext);
                    return Some(lowered);
                }
            }
            return None;
        }
        proof {
            let shorter = file_path@.subrange(0, i - 1);
            assert(pre.drop_last() =~= shorter);
            assert(pre.len() >= 1 && !is_sep(pre[pre.len() - 1]) && pre[pre.len() - 1] != '.');
            match ext_scan(shorter) {
                Some(e) => {
                    assert(ext_scan(pre) == Some(e.push(file_path@[i - 1])));
                    assert(e.push(file_path@[i - 1]) + file_path@.subrange(i as int, n as int)
                        =~= e + file_path@.subrange(i - 1, n as int));
                },
                None => {
                    assert(ext_scan(pre) is None);
                },
            }
        }
        i = i - 1;
    }
    proof {
        assert(file_path@.subrange(0, 0) =~= Seq::<char>::empty());
    }
    None
}

/// Checks that the bytes are a valid UTF-8 encoding: scalar by scalar,
/// each must carry a well-formed leading byte, its continuation bytes,
/// no overlong encoding and no surrogate.
pub fn is_utf8(buffer: &[u8]) -> (r: bool)
    ensures
        r == vstd::utf8::valid_utf8(buffer@),
{
    let n = buffer.len();
    let mut i: usize = 0;
    proof {
        assert(buffer@.subrange(0, n as int) =~= buffer@);
    }
    while i < n
        invariant
            i <= n,
            n == buffer@.len(),
            vstd::utf8::valid_utf8(buffer@) == vstd::utf8::valid_utf8(
                buffer@.subrange(i as int, n as int),
            ),
        decreases n - i,
    {
        let ghost rem = buffer@.subrange(i as int, n as int);
        proof {
            assert(rem.len() == n - i);
            assert(rem[0] == buffer@[i as int]);
        }
        let b0 = buffer[i];
        if b0 <= 0x7f {
            proof {
                assert(b0 & 0x7f <= 0x7f) by (bit_vector);
                assert(vstd::utf8::valid_first_scalar(rem));
                assert(vstd::utf8::length_of_first_scalar(rem) == 1);
                assert(vstd::utf8::pop_first_scalar(rem) =~= buffer@.subrange(i + 1, n as int));
            }
            i = i + 1;
        } else if 0xc0 <= b0 && b0 <= 0xdf {
            if i + 1 >= n {
                proof {
                    assert(!vstd::utf8::valid_first_scalar(rem));
                }
                return false;
            }
            let b1 = buffer[i + 1];
            proof {
                assert(rem[1] == buffer@[i + 1]);
            }
            if !(0x80 <= b1 && b1 <= 0xbf) {
                proof {
                    assert(!vstd::utf8::valid_first_scalar(rem));
                }
                return false;
            }
            let cp: u32 = (((b0 & 0x1f) as u32) << 6) | ((b1 & 0x3f) as u32);
            proof {
                assert(cp == vstd::utf8::codepoint_width_2(rem[0], rem[1]));
            }
            if cp < 0x80 {
                proof {
                    assert(!vstd::utf8::valid_first_scalar(rem));
                }
                return false;
            }
            proof {
                // a two-byte encoding stays far below the surrogate range
                assert(((((b0 & 0x1f) as u32) << 6) | ((b1 & 0x3f) as u32)) <= 0x7ff)
                    by (bit_vector);
                assert(vstd::utf8::valid_first_scalar(rem));
                assert(vstd::utf8::length_of_first_scalar(rem) == 2);
                assert(vstd::utf8::pop_first_scalar(rem) =~= buffer@.subrange(i + 2, n as int));
            }
            i = i + 2;
        } else if 0xe0 <= b0 && b0 <= 0xef {
            if n - i < 3 {
                proof {
                    assert(!vstd::utf8::valid_first_scalar(rem));
                }
                return false;
            }
            let b1 = buffer[i + 1];
            let b2 = buffer[i + 2];
            proof {
                assert(rem[1] == buffer@[i + 1]);
                assert(rem[2] == buffer@[i + 2]);
            }
            if !(0x80 <= b1 && b1 <= 0xbf) || !(0x80 <= b2 && b2 <= 0xbf) {
                proof {
                    assert(!vstd::utf8::valid_first_scalar(rem));
                }
                return false;
            }
            let cp: u32 = (((b0 & 0x0f) as u32) << 12) | (((b1 & 0x3f) as u32) << 6) | ((b2
                & 0x3f) as u32);
            proof {
                assert(cp == vstd::utf8::codepoint_width_3(rem[0], rem[1], rem[2]));
            }
            if cp < 0x800 || (0xd800 <= cp && cp <= 0xdfff) {
                proof {
                    assert(!vstd::utf8::valid_first_scalar(rem));
                }
                return false;
            }
            proof {
                assert(vstd::utf8::valid_first_scalar(rem));
                assert(vstd::utf8::length_of_first_scalar(rem) == 3);
                assert(vstd::utf8::pop_first_scalar(rem) =~= buffer@.subrange(i + 3, n as int));
            }
            i = i + 3;
        } else if 0xf0 <= b0 && b0 <= 0xf7 {
            if n - i < 4 {
                proof {
                    assert(!vstd::utf8::valid_first_scalar(rem));
                }
                return false;
            }
            let b1 = buffer[i + 1];
            let b2 = buffer[i + 2];
            let b3 = buffer[i + 3];
            proof {
                assert(rem[1] == buffer@[i + 1]);
                assert(rem[2] == buffer@[i + 2]);
                assert(rem[3] == buffer@[i + 3]);
            }
            if !(0x80 <= b1 && b1 <= 0xbf) || !(0x80 <= b2 && b2 <= 0xbf) || !(0x80 <= b3 && b3
                <= 0xbf) {
                proof {
                    assert(!vstd::utf8::valid_first_scalar(rem));
                }
                return false;
            }
            let cp: u32 = (((b0 & 0x07) as u32) << 18) | (((b1 & 0x3f) as u32) << 12) | (((b2
                & 0x3f) as u32) << 6) | ((b3 & 0x3f) as u32);
            proof {
                assert(cp == vstd::utf8::codepoint_width_4(rem[0], rem[1], rem[2], rem[3]));
            }
            if cp < 0x10000 || cp > 0x10ffff {
                proof {
                    assert(!vstd::utf8::valid_first_scalar(rem));
                }
                return false;
            }
            proof {
                assert(vstd::utf8::valid_first_scalar(rem));
                assert(vstd::utf8::length_of_first_scalar(rem) == 4);
                assert(vstd::utf8::pop_first_scalar(rem) =~= buffer@.subrange(i + 4, n as int));
            }
            i = i + 4;
        } else {
            proof {
                assert(!vstd::utf8::valid_first_scalar(rem));
            }
            return false;
        }
        proof {
            assert(vstd::utf8::valid_utf8(buffer@) == vstd::utf8::valid_utf8(
                buffer@.subrange(i as int, n as int),
            ));
        }
    }
    proof {
        assert(buffer@.subrange(n as int, n as int) =~= Seq::<u8>::empty());
    }
    true
}

/// Relies on char::from_u32: exactly the Unicode scalar values convert,
/// to the character with that value.
pub assume_specification[ char::from_u32 ](i: u32) -> (r: Option<char>)
    ensures
        (r is Some) == vstd::utf8::is_scalar(i),
        r matches Some(c) ==> c as u32 == i,
;

/// Decodes bytes known to be valid UTF-8, scalar by scalar.
fn decode_utf8_bytes(buffer: &[u8]) -> (r: String)
    requires
        vstd::utf8::valid_utf8(buffer@),
    ensures
        r@ == vstd::utf8::decode_utf8(buffer@),
{
    let n = buffer.len();
    let mut out = String::new();
    let mut i: usize = 0;
    proof {
        assert(buffer@.subrange(0, n as int) =~= buffer@);
    }
    while i < n
        invariant
            i <= n,
            n == buffer@.len(),
            vstd::utf8::valid_utf8(buffer@.subrange(i as int, n as int)),
            vstd::utf8::decode_utf8(buffer@) == out@ + vstd::utf8::decode_utf8(
                buffer@.subrange(i as int, n as int),
            ),
        decreases n - i,
    {
        let ghost rem = buffer@.subrange(i as int, n as int);
        proof {
            assert(rem.len() == n - i);
            assert(rem[0] == buffer@[i as int]);
            assert(vstd::utf8::valid_first_scalar(rem));
        }
        let b0 = buffer[i];
        let cp: u32;
        let width: usize;
        if b0 <= 0x7f {
            cp = (b0 & 0x7f) as u32;
            width = 1;
            proof {
                assert(b0 & 0x7f <= 0x7f) by (bit_vector);
            }
        } else if b0 <= 0xdf {
            proof {
                assert(0xc0 <= rem[0]);
                assert(rem.len() >= 2);
                assert(rem[1] == buffer@[i + 1]);
            }
            let b1 = buffer[i + 1];
            cp = (((b0 & 0x1f) as u32) << 6) | ((b1 & 0x3f) as u32);
            width = 2;
            proof {
                assert(((((b0 & 0x1f) as u32) << 6) | ((b1 & 0x3f) as u32)) <= 0x7ff)
                    by (bit_vector);
            }
        } else if b0 <= 0xef {
            proof {
                assert(rem.len() >= 3);
                assert(rem[1] == buffer@[i + 1]);
                assert(rem[2] == buffer@[i + 2]);
            }
            let b1 = buffer[i + 1];
            let b2 = buffer[i + 2];
            cp = (((b0 & 0x0f) as u32) << 12) | (((b1 & 0x3f) as u32) << 6) | ((b2 & 0x3f)
                as u32);
            width = 3;
            proof {
                assert(((((b0 & 0x0f) as u32) << 12) | (((b1 & 0x3f) as u32) << 6) | ((b2
                    & 0x3f) as u32)) <= 0xffff) by (bit_vector);
            }
        } else {
            proof {
                assert(rem[0] <= 0xf7);
                assert(rem.len() >= 4);
                assert(rem[1] == buffer@[i + 1]);
                assert(rem[2] == buffer@[i + 2]);
                assert(rem[3] == buffer@[i + 3]);
            }
            let b1 = buffer[i + 1];
            let b2 = buffer[i + 2];
            let b3 = buffer[i + 3];
            cp = (((b0 & 0x07) as u32) << 18) | (((b1 & 0x3f) as u32) << 12) | (((b2 & 0x3f)
                as u32) << 6) | ((b3 & 0x3f) as u32);
            width = 4;
        }
        proof {
            assert(cp == vstd::utf8::decode_first_codepoint(rem));
            assert(vstd::utf8::is_scalar(cp));
            assert(vstd::utf8::length_of_first_scalar(rem) == width);
        }
        let c = char::from_u32(cp).unwrap();
        let ghost out0 = out@;
        push_char(&mut out, c);
        proof {
            vstd::utf8::char_u32_cast(c, cp);
            assert((cp as char) == c);
            assert(vstd::utf8::pop_first_scalar(rem) =~= buffer@.subrange(
                i + width,
                n as int,
            ));
            assert(vstd::utf8::decode_utf8(rem) == seq![c] + vstd::utf8::decode_utf8(
                buffer@.subrange(i + width, n as int),
            ));
            assert(out0 + (seq![c] + vstd::utf8::decode_utf8(
                buffer@.subrange(i + width, n as int),
            )) =~= out0.push(c) + vstd::utf8::decode_utf8(buffer@.subrange(i + width, n as int)));
        }
        i = i + width;
    }
    proof {
        assert(buffer@.subrange(n as int, n as int) =~= Seq::<u8>::empty());
        assert(out@ + Seq::<char>::empty() =~= out@);
    }
    out
}

/// What the strict GBK decoder yields for these bytes, if it succeeds;
/// a function of the bytes alone.
pub uninterp spec fn gbk_decoded(bytes: Seq<u8>) -> Option<Seq<char>>;

/// Relies on the encoding crate's GBK decoder with the strict trap: it
/// either decodes the whole input or fails, deterministically.
#[verifier::external_body]
fn gbk_decode(buffer: &[u8]) -> (r: Option<String>)
    ensures
        (r is Some) == (gbk_decoded(buffer@) is Some),
        r matches Some(s) ==> gbk_decoded(buffer@) == Some(s@),
{
    encoding::Encoding::decode(encoding::all::GBK, buffer, encoding::DecoderTrap::Strict).ok()
}

/// What the raw-text route yields for a file's bytes: the UTF-8
/// decoding when the bytes are valid UTF-8, otherwise the strict GBK
/// decoding, otherwise nothing.
pub open spec fn decoded_text(bytes: Seq<u8>) -> Seq<char> {
    if vstd::utf8::valid_utf8(bytes) {
        vstd::utf8::decode_utf8(bytes)
    } else {
        match gbk_decoded(bytes) {
            Some(s) => s,
            None => Seq::empty(),
        }
    }
}

/// Decodes a text file's bytes: UTF-8 first, the legacy GBK encoding
/// second, and empty text when both fail.
pub fn decode_text_bytes(buffer: &[u8]) -> (r: String)
    ensures
        r@ == decoded_text(buffer@),
{
    if is_utf8(buffer) {
        decode_utf8_bytes(buffer)
    } else {
        match gbk_decode(buffer) {
            Some(s) => s,
            None => String::new(),
        }
    }
}

/// A control byte outside the printable and line-layout ranges.
pub open spec fn is_nonprintable(b: u8) -> bool {
    b < 0x09 || (0x0d < b && b < 0x20)
}

pub open spec fn nonprintable_count(bytes: Seq<u8>) -> nat
    decreases bytes.len(),
{
    if bytes.len() == 0 {
        0
    } else {
        nonprintable_count(bytes.drop_last()) + if is_nonprintable(bytes.last()) {
            1nat
        } else {
            0nat
        }
    }
}

/// The binary heuristic over a file's leading bytes: text when fewer
/// than a tenth of them are non-printable control bytes.
pub fn is_text_bytes(buffer: &[u8]) -> (r: bool)
    ensures
        r == (nonprintable_count(buffer@) < buffer@.len() / 10),
{
    let mut count: usize = 0;
    let mut i: usize = 0;
    proof {
        assert(buffer@.subrange(0, 0) =~= Seq::<u8>::empty());
    }
    while i < buffer.len()
        invariant
            i <= buffer@.len(),
            count == nonprintable_count(buffer@.subrange(0, i as int)),
            count <= i,
        decreases buffer@.len() - i,
    {
        let b = buffer[i];
        proof {
            let pre = buffer@.subrange(0, i + 1);
            assert(pre.drop_last() =~= buffer@.subrange(0, i as int));
            assert(pre.last() == buffer@[i as int]);
        }
        if b < 0x09 || (0x0d < b && b < 0x20) {
            count = count + 1;
        }
        i = i + 1;
    }
    proof {
        assert(buffer@.subrange(0, buffer@.len() as int) =~= buffer@);
    }
    count < buffer.len() / 10
}

/// How the text pipeline treats one path: nothing to extract, the
/// office-document decoder, or the raw-text route over the file's own
/// bytes.
#[derive(Debug, PartialEq, Eq, Structural)]
pub enum ExtractPlan {
    EmptyText,
    OfficeDoc,
    RawText,
}

/// The dispatch rule: directories, extensionless paths, images and
/// archives yield empty text; the office formats go to the document
/// decoder; everything else is read as text.
pub open spec fn spec_extract_plan(path: Seq<char>, is_dir: bool) -> ExtractPlan {
    if is_dir {
        ExtractPlan::EmptyText
    } else {
        match ext_lower_of(path) {
            None => ExtractPlan::EmptyText,
            Some(e) => {
                if e == "docx"@ || e == "xlsx"@ || e == "pptx"@ {
                    ExtractPlan::OfficeDoc
                } else if e == "png"@ || e == "jpg"@ || e == "jpeg"@ || e == "bmp"@
                    || e == "gif"@ {
                    ExtractPlan::EmptyText
                } else if crate::file_scanner::is_archive_ext(e) {
                    ExtractPlan::EmptyText
                } else {
                    ExtractPlan::RawText
                }
            },
        }
    }
}

/// Chooses the extraction route for one path.
pub fn extract_plan(file_path: &str, is_dir: bool) -> (r: ExtractPlan)
    ensures
        r == spec_extract_plan(file_path@, is_dir),
{
    if is_dir {
        return ExtractPlan::EmptyText;
    }
    match get_ext_name(file_path) {
        None => ExtractPlan::EmptyText,
        Some(e) => {
            let s = e.as_str();
            if str_eq(s, "docx") || str_eq(s, "xlsx") || str_eq(s, "pptx") {
                ExtractPlan::OfficeDoc
            } else if str_eq(s, "png") || str_eq(s, "jpg") || str_eq(s, "jpeg") || str_eq(
                s,
                "bmp",
            ) || str_eq(s, "gif") {
                ExtractPlan::EmptyText
            } else if str_eq(s, "zip") || str_eq(s, "rar") || str_eq(s, "7z") || str_eq(s, "tar")
                || str_eq(s, "wim") || str_eq(s, "xz") || str_eq(s, "cab") || str_eq(s, "iso")
                || str_eq(s, "msi") || str_eq(s, "rpm") || str_eq(s, "gz") {
                ExtractPlan::EmptyText
            } else {
                ExtractPlan::RawText
            }
        },
    }
}

} // verus!
