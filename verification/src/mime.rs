//! MIME type detection from a file name's extension.

use vstd::prelude::*;

use crate::paths::last_pos;
use crate::paths::find_last;
use crate::strutil::str_eq;

verus! {

/// ASCII-lowercases one character.
pub open spec fn lower_char(c: char) -> char {
    if 'A' <= c && c <= 'Z' {
        (((c as u32) + 32) as u8) as char
    } else {
        c
    }
}

/// ASCII-lowercases a character sequence.
pub open spec fn lower_seq(s: Seq<char>) -> Seq<char> {
    s.map_values(|c: char| lower_char(c))
}

/// The extension of a file name: the text after the last dot of the
/// final path component; empty when there is no dot, or the component
/// starts with its only dot.
pub open spec fn ext_of(p: Seq<char>) -> Seq<char> {
    let comp = p.subrange(last_pos(p, '/') + 1, p.len() as int);
    let j = last_pos(comp, '.');
    if j <= 0 {
        Seq::empty()
    } else {
        comp.subrange(j + 1, comp.len() as int)
    }
}

/// The MIME type registered for a lowercased extension.
pub open spec fn mime_for_ext(e: Seq<char>) -> Seq<char> {
    if e == "jpg"@ || e == "jpeg"@ {
        "image/jpeg"@
    } else if e == "png"@ {
        "image/png"@
    } else if e == "gif"@ {
        "image/gif"@
    } else if e == "svg"@ {
        "image/svg+xml"@
    } else if e == "webp"@ {
        "image/webp"@
    } else if e == "pdf"@ {
        "application/pdf"@
    } else if e == "doc"@ {
        "application/msword"@
    } else if e == "docx"@ {
        "application/vnd.openxmlformats-officedocument.wordprocessingml.document"@
    } else if e == "xls"@ {
        "application/vnd.ms-excel"@
    } else if e == "xlsx"@ {
        "application/vnd.openxmlformats-officedocument.spreadsheetml.sheet"@
    } else if e == "ppt"@ {
        "application/vnd.ms-powerpoint"@
    } else if e == "pptx"@ {
        "application/vnd.openxmlformats-officedocument.presentationml.presentation"@
    } else if e == "txt"@ {
        "text/plain"@
    } else if e == "csv"@ {
        "text/csv"@
    } else if e == "json"@ {
        "application/json"@
    } else if e == "xml"@ {
        "application/xml"@
    } else if e == "html"@ || e == "htm"@ {
        "text/html"@
    } else if e == "css"@ {
        "text/css"@
    } else if e == "js"@ {
        "text/javascript"@
    } else if e == "mp4"@ {
        "video/mp4"@
    } else if e == "avi"@ {
        "video/x-msvideo"@
    } else if e == "mov"@ {
        "video/quicktime"@
    } else if e == "wmv"@ {
        "video/x-ms-wmv"@
    } else if e == "mp3"@ {
        "audio/mpeg"@
    } else if e == "wav"@ {
        "audio/wav"@
    } else if e == "ogg"@ {
        "audio/ogg"@
    } else if e == "zip"@ {
        "application/zip"@
    } else if e == "rar"@ {
        "application/x-rar-compressed"@
    } else if e == "7z"@ {
        "application/x-7z-compressed"@
    } else if e == "tar"@ {
        "application/x-tar"@
    } else if e == "gz"@ {
        "application/gzip"@
    } else {
        "application/octet-stream"@
    }
}

/// The MIME type a file name maps to.
pub open spec fn mime_of(filename: Seq<char>) -> Seq<char> {
    mime_for_ext(lower_seq(ext_of(filename)))
}

/// ASCII-lowercases one character.
fn lower_c(c: char) -> (r: char)
    ensures
        r == lower_char(c),
{
    let u = c as u32;
    if 65 <= u && u <= 90 {
        ((u + 32) as u8) as char
    } else {
        c
    }
}

/// ASCII-lowercases a string.
fn lower_string(s: &str) -> (r: String)
    ensures
        r@ == lower_seq(s@),
{
    let n = s.unicode_len();
    let mut out = String::new();
    let mut i: usize = 0;
    while i < n
        invariant
            i <= n,
            n == s@.len(),
            out@ =~= lower_seq(s@.subrange(0, i as int)),
        decreases n - i,
    {
        out.push(lower_c(s.get_char(i)));
        proof {
            assert(s@.subrange(0, i as int + 1).drop_last() =~= s@.subrange(0, i as int));
            assert(lower_seq(s@.subrange(0, i as int + 1)) =~= lower_seq(
                s@.subrange(0, i as int),
            ).push(lower_char(s@[i as int])));
        }
        i = i + 1;
    }
    proof {
        assert(s@.subrange(0, n as int) =~= s@);
    }
    out
}

/// Picks the MIME type for a file name by its extension,
/// case-insensitively; unknown extensions map to a generic byte stream.
pub fn get_mime_type(filename: &str) -> (r: String)
    ensures
        r@ == mime_of(filename@),
{
    let n = filename.unicode_len();
    proof {
        assert(filename@.subrange(0, n as int) =~= filename@);
    }
    let comp_start: usize = match find_last(filename, '/') {
        None => 0,
        Some(j) => j + 1,
    };
    let comp = filename.substring_char(comp_start, n);
    let ghost comps = filename@.subrange(last_pos(filename@, '/') + 1, filename@.len() as int);
    proof {
        assert(comp@ =~= comps);
    }
    let ext: &str = match find_last(comp, '.') {
        Some(j) if j > 0 => comp.substring_char(j + 1, comp.unicode_len()),
        _ => "",
    };
    proof {
        reveal_strlit("");
        assert(""@ =~= Seq::<char>::empty());
        assert(ext@ == ext_of(filename@));
    }
    let el = lower_string(ext);
    let r: &str =     if str_eq(el.as_str(), "jpg") || str_eq(el.as_str(), "jpeg") {
        "image/jpeg"
    } else if str_eq(el.as_str(), "png") {
        "image/png"
    } else if str_eq(el.as_str(), "gif") {
        "image/gif"
    } else if str_eq(el.as_str(), "svg") {
        "image/svg+xml"
    } else if str_eq(el.as_str(), "webp") {
        "image/webp"
    } else if str_eq(el.as_str(), "pdf") {
        "application/pdf"
    } else if str_eq(el.as_str(), "doc") {
        "application/msword"
    } else if str_eq(el.as_str(), "docx") {
        "application/vnd.openxmlformats-officedocument.wordprocessingml.document"
    } else if str_eq(el.as_str(), "xls") {
        "application/vnd.ms-excel"
    } else if str_eq(el.as_str(), "xlsx") {
        "application/vnd.openxmlformats-officedocument.spreadsheetml.sheet"
    } else if str_eq(el.as_str(), "ppt") {
        "application/vnd.ms-powerpoint"
    } else if str_eq(el.as_str(), "pptx") {
        "application/vnd.openxmlformats-officedocument.presentationml.presentation"
    } else if str_eq(el.as_str(), "txt") {
        "text/plain"
    } else if str_eq(el.as_str(), "csv") {
        "text/csv"
    } else if str_eq(el.as_str(), "json") {
        "application/json"
    } else if str_eq(el.as_str(), "xml") {
        "application/xml"
    } else if str_eq(el.as_str(), "html") || str_eq(el.as_str(), "htm") {
        "text/html"
    } else if str_eq(el.as_str(), "css") {
        "text/css"
    } else if str_eq(el.as_str(), "js") {
        "text/javascript"
    } else if str_eq(el.as_str(), "mp4") {
        "video/mp4"
    } else if str_eq(el.as_str(), "avi") {
        "video/x-msvideo"
    } else if str_eq(el.as_str(), "mov") {
        "video/quicktime"
    } else if str_eq(el.as_str(), "wmv") {
        "video/x-ms-wmv"
    } else if str_eq(el.as_str(), "mp3") {
        "audio/mpeg"
    } else if str_eq(el.as_str(), "wav") {
        "audio/wav"
    } else if str_eq(el.as_str(), "ogg") {
        "audio/ogg"
    } else if str_eq(el.as_str(), "zip") {
        "application/zip"
    } else if str_eq(el.as_str(), "rar") {
        "application/x-rar-compressed"
    } else if str_eq(el.as_str(), "7z") {
        "application/x-7z-compressed"
    } else if str_eq(el.as_str(), "tar") {
        "application/x-tar"
    } else if str_eq(el.as_str(), "gz") {
        "application/gzip"
    } else {
        "application/octet-stream"
    };
    r.to_owned()
}

} // verus!
