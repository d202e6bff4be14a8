//! Inline previews of small images and audio files: which files qualify,
//! how large they may be, and their `data:` URI with a base64 body.

use vstd::prelude::*;
use crate::paths::{FsPath, pview};
use crate::text::{eq_ignore_ascii_case, eq_ignore_ascii_case_exec};
use crate::traversal::{extension, file_extension};

verus! {

/// Largest image previewed: 25 MiB.
pub const IMAGE_SIZE_LIMIT: u64 = 26214400;
/// Largest audio file previewed: 25 MiB.
pub const AUDIO_SIZE_LIMIT: u64 = 26214400;

/// The MIME type a webview renders for an extension, ignoring ASCII case;
/// HEIC, TIFF, video and anything else are not previewed.
pub open spec fn mime_of(ext: Seq<char>) -> Option<Seq<char>> {
    if eq_ignore_ascii_case(ext, "jpg"@) || eq_ignore_ascii_case(ext, "jpeg"@) {
        Some("image/jpeg"@)
    } else if eq_ignore_ascii_case(ext, "png"@) {
        Some("image/png"@)
    } else if eq_ignore_ascii_case(ext, "gif"@) {
        Some("image/gif"@)
    } else if eq_ignore_ascii_case(ext, "webp"@) {
        Some("image/webp"@)
    } else if eq_ignore_ascii_case(ext, "bmp"@) {
        Some("image/bmp"@)
    } else if eq_ignore_ascii_case(ext, "svg"@) {
        Some("image/svg+xml"@)
    } else if eq_ignore_ascii_case(ext, "mp3"@) {
        Some("audio/mpeg"@)
    } else if eq_ignore_ascii_case(ext, "wav"@) {
        Some("audio/wav"@)
    } else if eq_ignore_ascii_case(ext, "flac"@) {
        Some("audio/flac"@)
    } else if eq_ignore_ascii_case(ext, "m4a"@) {
        Some("audio/mp4"@)
    } else if eq_ignore_ascii_case(ext, "aac"@) {
        Some("audio/aac"@)
    } else if eq_ignore_ascii_case(ext, "ogg"@) {
        Some("audio/ogg"@)
    } else {
        None
    }
}

/// The preview MIME type of a file, from its extension.
pub fn mime_for_extension(path: &FsPath) -> (r: Option<&'static str>)
    ensures
        match extension(pview(*path)) {
            Some(e) => match mime_of(e) {
                Some(m) => r matches Some(s) && s@ == m,
                None => r is None,
            },
            None => r is None,
        },
{
    let ext = match file_extension(path) {
        Some(e) => e,
        None => {
            return None;
        },
    };
    let e = ext.as_str();
    if eq_ignore_ascii_case_exec(e, "jpg") || eq_ignore_ascii_case_exec(e, "jpeg") {
        Some("image/jpeg")
    } else if eq_ignore_ascii_case_exec(e, "png") {
        Some("image/png")
    } else if eq_ignore_ascii_case_exec(e, "gif") {
        Some("image/gif")
    } else if eq_ignore_ascii_case_exec(e, "webp") {
        Some("image/webp")
    } else if eq_ignore_ascii_case_exec(e, "bmp") {
        Some("image/bmp")
    } else if eq_ignore_ascii_case_exec(e, "svg") {
        Some("image/svg+xml")
    } else if eq_ignore_ascii_case_exec(e, "mp3") {
        Some("audio/mpeg")
    } else if eq_ignore_ascii_case_exec(e, "wav") {
        Some("audio/wav")
    } else if eq_ignore_ascii_case_exec(e, "flac") {
        Some("audio/flac")
    } else if eq_ignore_ascii_case_exec(e, "m4a") {
        Some("audio/mp4")
    } else if eq_ignore_ascii_case_exec(e, "aac") {
        Some("audio/aac")
    } else if eq_ignore_ascii_case_exec(e, "ogg") {
        Some("audio/ogg")
    } else {
        None
    }
}

/// The decimal digits of `n`.
pub open spec fn decimal(n: nat) -> Seq<char>
    decreases n,
{
    if n < 10 {
        seq!["0123456789"@[n as int]]
    } else {
        decimal(n / 10).push("0123456789"@[(n % 10) as int])
    }
}

/// `n` written in decimal.
pub fn decimal_string(n: u128) -> (r: String)
    ensures
        r@ == decimal(n as nat),
    decreases n,
{
    let digits = "0123456789";
    proof {
        reveal_strlit("0123456789");
    }
    let d = (n % 10) as usize;
    if n < 10 {
        let mut out = String::new();
        out.append(digits.substring_char(d, d + 1));
        assert(out@ =~= decimal(n as nat));
        out
    } else {
        let mut out = decimal_string(n / 10);
        let ghost before = out@;
        out.append(digits.substring_char(d, d + 1));
        assert(out@ =~= decimal(n as nat));
        out
    }
}

/// The size limit of a MIME type's previews: images and audio alike.
pub open spec fn limit_of(mime: Seq<char>) -> u64 {
    if mime.len() >= 6 && mime.take(6) == "image/"@ {
        IMAGE_SIZE_LIMIT
    } else {
        AUDIO_SIZE_LIMIT
    }
}

/// The error for a file over the preview limit.
pub open spec fn too_large_message(size: u64, limit: u64) -> Seq<char> {
    "file too large to preview ("@ + decimal(size as nat) + " bytes, limit "@ + decimal(limit as nat) + " bytes)"@
}

/// `Ok` when a file of `size` bytes may be previewed as `mime`, else the
/// reason it is too large.
pub fn check_preview_size(mime: &str, size: u64) -> (r: Result<(), String>)
    ensures
        size <= limit_of(mime@) ==> r is Ok,
        size > limit_of(mime@) ==> (r matches Err(e) && e@ == too_large_message(size, limit_of(mime@))),
{
    let image = "image/";
    proof {
        reveal_strlit("image/");
    }
    let is_image = mime.unicode_len() >= 6 && crate::text::text_eq(mime.substring_char(0, 6), image);
    assert(is_image == (mime@.len() >= 6 && mime@.take(6) == "image/"@)) by {
        if mime@.len() >= 6 {
            assert(mime@.subrange(0, 6) =~= mime@.take(6));
        }
    }
    let limit = if is_image { IMAGE_SIZE_LIMIT } else { AUDIO_SIZE_LIMIT };
    if size > limit {
        let mut e = String::from_str("file too large to preview (");
        let s = decimal_string(size as u128);
        e.append(s.as_str());
        e.append(" bytes, limit ");
        let l = decimal_string(limit as u128);
        e.append(l.as_str());
        e.append(" bytes)");
        return Err(e);
    }
    Ok(())
}

/// The base64 digit for a six-bit value.
pub open spec fn b64_digit(v: int) -> char {
    "ABCDEFGHIJKLMNOPQRSTUVWXYZabcdefghijklmnopqrstuvwxyz0123456789+/"@[v]
}

/// The base64 characters of one group of one to three bytes, padded with `=`.
pub open spec fn b64_group(g: Seq<u8>) -> Seq<char> {
    let b0 = g[0] as int;
    let b1 = if g.len() > 1 { g[1] as int } else { 0 };
    let b2 = if g.len() > 2 { g[2] as int } else { 0 };
    seq![
        b64_digit(b0 / 4),
        b64_digit((b0 % 4) * 16 + b1 / 16),
        if g.len() > 1 { b64_digit((b1 % 16) * 4 + b2 / 64) } else { '=' },
        if g.len() > 2 { b64_digit(b2 % 64) } else { '=' },
    ]
}

/// Standard base64 (RFC 4648 alphabet, `=` padding) of `b`, three bytes at a time.
pub open spec fn base64(b: Seq<u8>) -> Seq<char>
    decreases b.len(),
{
    if b.len() == 0 {
        Seq::empty()
    } else if b.len() <= 3 {
        b64_group(b)
    } else {
        b64_group(b.take(3)) + base64(b.skip(3))
    }
}

proof fn lemma_base64_step(b: Seq<u8>, i: int)
    requires
        0 <= i,
        i % 3 == 0,
        i < b.len(),
    ensures
        base64(b.skip(i)) == b64_group(b.skip(i).take(if b.len() - i >= 3 { 3int } else { b.len() - i }))
            + base64(b.skip(i + if b.len() - i >= 3 { 3int } else { b.len() - i })),
{
    let rest = b.skip(i);
    if rest.len() <= 3 {
        assert(rest.take(rest.len() as int) =~= rest);
        assert(b.skip(b.len() as int) =~= Seq::<u8>::empty());
    } else {
        assert(rest.skip(3) =~= b.skip(i + 3));
    }
}

/// Standard RFC 4648 base64 of `bytes`, with `=` padding.
pub fn base64_encode(bytes: &Vec<u8>) -> (r: String)
    ensures
        r@ == base64(bytes@),
{
    let alphabet = "ABCDEFGHIJKLMNOPQRSTUVWXYZabcdefghijklmnopqrstuvwxyz0123456789+/";
    let pad = "=";
    proof {
        reveal_strlit("ABCDEFGHIJKLMNOPQRSTUVWXYZabcdefghijklmnopqrstuvwxyz0123456789+/");
        reveal_strlit("=");
    }
    let n = bytes.len();
    let mut out = String::new();
    let mut i: usize = 0;
    assert(bytes@.skip(0) =~= bytes@);
    while i < n
        invariant
            n == bytes@.len(),
            i <= n,
            i % 3 == 0 || i == n,
            alphabet@ == "ABCDEFGHIJKLMNOPQRSTUVWXYZabcdefghijklmnopqrstuvwxyz0123456789+/"@,
            pad@ == "="@,
            "ABCDEFGHIJKLMNOPQRSTUVWXYZabcdefghijklmnopqrstuvwxyz0123456789+/"@.len() == 64,
            "="@.len() == 1,
            "="@[0] == '=',
            out@ + base64(bytes@.skip(i as int)) == base64(bytes@),
        decreases n - i,
    {
        let take: usize = if n - i >= 3 { 3 } else { n - i };
        proof {
            lemma_base64_step(bytes@, i as int);
        }
        let b0 = bytes[i] as u32;
        let b1: u32 = if take > 1 { bytes[i + 1] as u32 } else { 0 };
        let b2: u32 = if take > 2 { bytes[i + 2] as u32 } else { 0 };
        let ghost g = bytes@.skip(i as int).take(take as int);
        assert(g[0] == bytes@[i as int]);
        assert(take > 1 ==> g[1] == bytes@[i + 1]);
        assert(take > 2 ==> g[2] == bytes@[i + 2]);
        let ghost before = out@;
        let ghost al = "ABCDEFGHIJKLMNOPQRSTUVWXYZabcdefghijklmnopqrstuvwxyz0123456789+/"@;
        assert(g.len() == take);
        let d0 = (b0 / 4) as usize;
        let d1 = ((b0 % 4) * 16 + b1 / 16) as usize;
        out.append(alphabet.substring_char(d0, d0 + 1));
        assert(al.subrange(d0 as int, d0 + 1) =~= seq![b64_digit(d0 as int)]);
        out.append(alphabet.substring_char(d1, d1 + 1));
        assert(al.subrange(d1 as int, d1 + 1) =~= seq![b64_digit(d1 as int)]);
        let ghost mid = out@;
        assert(mid =~= before + seq![b64_group(g)[0], b64_group(g)[1]]);
        if take > 1 {
            let d2 = ((b1 % 16) * 4 + b2 / 64) as usize;
            out.append(alphabet.substring_char(d2, d2 + 1));
            assert(al.subrange(d2 as int, d2 + 1) =~= seq![b64_digit(d2 as int)]);
        } else {
            out.append(pad);
        }
        let ghost mid2 = out@;
        assert(mid2 =~= mid.push(b64_group(g)[2]));
        if take > 2 {
            let d3 = (b2 % 64) as usize;
            out.append(alphabet.substring_char(d3, d3 + 1));
            assert(al.subrange(d3 as int, d3 + 1) =~= seq![b64_digit(d3 as int)]);
        } else {
            out.append(pad);
        }
        assert(out@ =~= mid2.push(b64_group(g)[3]));
        assert(out@ =~= before + b64_group(g));
        i = i + take;
    }
    assert(bytes@.skip(n as int) =~= Seq::<u8>::empty());
    out
}

/// A `data:` URI carrying `bytes` as `mime`.
pub fn data_url(mime: &str, bytes: &Vec<u8>) -> (r: String)
    ensures
        r@ == "data:"@ + mime@ + ";base64,"@ + base64(bytes@),
{
    let mut out = String::from_str("data:");
    out.append(mime);
    out.append(";base64,");
    let body = base64_encode(bytes);
    out.append(body.as_str());
    out
}

} // verus!
