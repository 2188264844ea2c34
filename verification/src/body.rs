//! Response bodies: size limits, gzip detection by magic bytes, and the
//! one-line preview of an error body.

use vstd::prelude::*;

use std::io::Read;

use crate::text::{is_white_space, is_whitespace_char, push_char, push_str};

verus! {

/// The two bytes that open every gzip stream.
pub const GZIP_MAGIC: [u8; 2] = [0x1f, 0x8b];

/// Largest accepted response body, raw or decompressed, in bytes.
pub const MAX_BODY_BYTES: u64 = 1048576;

/// Largest part of an error body that is shown, in bytes.
pub const MAX_ERROR_BODY_BYTES: u64 = 1024;

/// `std::io::Error`, carried opaquely in `DecodeError::Decompress`.
#[verifier::external_type_specification]
#[verifier::external_body]
pub struct ExIoError(std::io::Error);

/// What reading at most `max` bytes from a gzip decoder over `data` gives:
/// the decompressed bytes read, or `None` when the decoder reports an error
/// first.
pub uninterp spec fn gunzip_prefix(data: Seq<u8>, max: nat) -> Option<Seq<u8>>;

/// Decompresses at most `max` bytes of the gzip stream in `data`
/// (`flate2::read::GzDecoder` read through `Read::take` and `read_to_end`).
///
/// Trusted: the outcome is the named one for the arguments, and a success
/// holds at most `max` bytes, as `Read::take` documents.
#[verifier::external_body]
fn gunzip_up_to(data: &[u8], max: u64) -> (r: Result<Vec<u8>, std::io::Error>)
    ensures
        r matches Ok(v) ==> gunzip_prefix(data@, max as nat) == Some(v@) && v@.len() <= max,
        r is Err ==> gunzip_prefix(data@, max as nat) is None,
{
    let mut out = Vec::new();
    flate2::read::GzDecoder::new(data).take(max).read_to_end(&mut out)?;
    Ok(out)
}

/// The body opens with the gzip magic bytes.
pub open spec fn is_gzip(body: Seq<u8>) -> bool {
    body.len() >= 2 && body[0] == 0x1f && body[1] == 0x8b
}

fn starts_with_gzip_magic(body: &[u8]) -> (r: bool)
    ensures
        r == is_gzip(body@),
{
    body.len() >= 2 && body[0] == GZIP_MAGIC[0] && body[1] == GZIP_MAGIC[1]
}

/// Why a body could not be decoded.
#[derive(Debug)]
pub enum DecodeError {
    /// The gzip stream is corrupt.
    Decompress(std::io::Error),
    /// The decompressed body exceeds the limit.
    ResponseTooLarge { limit: u64 },
}

/// The bytes read with a limit, kept only when they do not exceed it: a
/// reader is read for at most `limit + 1` bytes, and reaching that many
/// means the source was too large.
pub fn keep_within_limit(bytes: Vec<u8>, limit: u64) -> (r: Option<Vec<u8>>)
    ensures
        bytes@.len() <= limit ==> r == Some(bytes),
        bytes@.len() > limit ==> r is None,
{
    if bytes.len() as u64 <= limit {
        Some(bytes)
    } else {
        None
    }
}

/// The first `limit` of the bytes read, and whether more were read.
pub fn prefix_within_limit(bytes: Vec<u8>, limit: u64) -> (r: (Vec<u8>, bool))
    ensures
        r.1 == (bytes@.len() > limit),
        r.0@ == if bytes@.len() > limit {
            bytes@.take(limit as int)
        } else {
            bytes@
        },
{
    let truncated = bytes.len() as u64 > limit;
    let mut kept = bytes;
    if truncated {
        kept.truncate(limit as usize);
    }
    (kept, truncated)
}

fn slice_to_vec(s: &[u8]) -> (r: Vec<u8>)
    ensures
        r@ == s@,
{
    let mut out: Vec<u8> = Vec::new();
    let mut i: usize = 0;
    while i < s.len()
        invariant
            i <= s@.len(),
            out@ == s@.take(i as int),
        decreases s@.len() - i,
    {
        out.push(s[i]);
        assert(out@ =~= s@.take(i + 1));
        i = i + 1;
    }
    assert(s@.take(s@.len() as int) =~= s@);
    out
}

/// The body as sent, or decompressed when it opens with the gzip magic
/// bytes, whatever the response headers claim. A decompressed body larger
/// than `MAX_BODY_BYTES` is refused.
pub fn decode_body(body: &[u8]) -> (r: Result<Vec<u8>, DecodeError>)
    ensures
        !is_gzip(body@) ==> (r matches Ok(v) && v@ == body@),
        is_gzip(body@) ==> match gunzip_prefix(body@, (MAX_BODY_BYTES + 1) as nat) {
            None => (r matches Err(DecodeError::Decompress(_))),
            Some(bytes) => if bytes.len() <= MAX_BODY_BYTES {
                (r matches Ok(v) && v@ == bytes)
            } else {
                (r matches Err(DecodeError::ResponseTooLarge { limit }) && limit == MAX_BODY_BYTES)
            },
        },
{
    if starts_with_gzip_magic(body) {
        match gunzip_up_to(body, MAX_BODY_BYTES + 1) {
            Ok(bytes) => match keep_within_limit(bytes, MAX_BODY_BYTES) {
                Some(kept) => Ok(kept),
                None => Err(DecodeError::ResponseTooLarge { limit: MAX_BODY_BYTES }),
            },
            Err(error) => Err(DecodeError::Decompress(error)),
        }
    } else {
        Ok(slice_to_vec(body))
    }
}

/// What `String::from_utf8_lossy` makes of the bytes: the UTF-8 text, with
/// each invalid sequence replaced by U+FFFD.
pub uninterp spec fn utf8_lossy(bytes: Seq<u8>) -> Seq<char>;

/// Every byte is ASCII, below 0x80.
pub open spec fn ascii_bytes(bytes: Seq<u8>) -> bool {
    forall|i: int| 0 <= i < bytes.len() ==> #[trigger] bytes[i] < 0x80
}

/// The bytes as text, invalid UTF-8 replaced (`String::from_utf8_lossy`).
///
/// Trusted: the result is the named decoding of the bytes; ASCII bytes are
/// valid UTF-8 and decode one character per byte. How invalid sequences are
/// replaced is not stated here.
#[verifier::external_body]
fn lossy_text(bytes: &[u8]) -> (r: String)
    ensures
        r@ == utf8_lossy(bytes@),
        ascii_bytes(bytes@) ==> r@ == bytes@.map_values(|b: u8| b as char),
{
    String::from_utf8_lossy(bytes).into_owned()
}

/// The character is a control character (general category Cc), as
/// `char::is_control` tests.
pub open spec fn is_control_char(c: char) -> bool {
    let v = c as u32;
    v <= 0x1f || (0x7f <= v && v <= 0x9f)
}

/// The words of a text (its maximal runs of non-white-space characters)
/// joined by single spaces, and whether a space is due before the next word.
pub open spec fn words_joined_state(s: Seq<char>) -> (Seq<char>, bool)
    decreases s.len(),
{
    if s.len() == 0 {
        (seq![], false)
    } else {
        let (out, gap) = words_joined_state(s.drop_last());
        let c = s.last();
        if is_white_space(c) {
            (out, out.len() > 0)
        } else if gap {
            (out + seq![' ', c], false)
        } else {
            (out.push(c), false)
        }
    }
}

/// The words of a text joined by single spaces
/// (`split_whitespace` then `join(" ")`).
pub open spec fn words_joined(s: Seq<char>) -> Seq<char> {
    words_joined_state(s).0
}

/// Control characters replaced by spaces.
pub open spec fn without_controls(s: Seq<char>) -> Seq<char> {
    s.map_values(|c: char| if is_control_char(c) { ' ' } else { c })
}

/// The preview of an error body's text: its words joined by single spaces
/// once control characters count as spaces; `empty response body` when
/// nothing is left; and an ellipsis when the body was cut short.
pub open spec fn preview_of(text: Seq<char>, truncated: bool) -> Seq<char> {
    let p = words_joined(without_controls(text));
    if p.len() == 0 {
        "empty response body"@
    } else if truncated {
        p.push('\u{2026}')
    } else {
        p
    }
}

/// The preview of an error body's text.
pub fn preview_text(text: &str, truncated: bool) -> (r: String)
    ensures
        r@ == preview_of(text@, truncated),
{
    let n = text.unicode_len();
    let ghost s = without_controls(text@);
    let mut out = String::new();
    let mut gap = false;
    let mut i: usize = 0;
    while i < n
        invariant
            i <= n,
            n == text@.len(),
            s == without_controls(text@),
            (out@, gap) == words_joined_state(s.take(i as int)),
        decreases n - i,
    {
        let raw = text.get_char(i);
        let v = raw as u32;
        let c = if v <= 0x1f || (0x7f <= v && v <= 0x9f) { ' ' } else { raw };
        assert(c == s[i as int]);
        assert(s.take(i + 1).drop_last() =~= s.take(i as int));
        if is_whitespace_char(c) {
            gap = out.as_str().unicode_len() > 0;
        } else {
            if gap {
                push_char(&mut out, ' ');
                push_char(&mut out, c);
                gap = false;
            } else {
                push_char(&mut out, c);
            }
        }
        proof {
            let (o, g) = words_joined_state(s.take(i as int));
            if !is_white_space(c) && g {
                assert(o + seq![' ', c] =~= o.push(' ').push(c));
            }
        }
        i = i + 1;
    }
    assert(s.take(n as int) =~= s);
    if out.as_str().unicode_len() == 0 {
        return String::from_str("empty response body");
    }
    if truncated {
        push_char(&mut out, '\u{2026}');
    }
    out
}

/// The one-line preview of an error body: `raw` holds its first bytes, and
/// `raw_truncated` tells whether more followed. A body opening with the
/// gzip magic bytes is previewed decompressed when it decompresses, and as
/// sent otherwise.
pub fn error_body_preview(raw: &[u8], raw_truncated: bool) -> (r: String)
    ensures
        !is_gzip(raw@) ==> r@ == preview_of(utf8_lossy(raw@), raw_truncated),
        is_gzip(raw@) ==> match gunzip_prefix(raw@, (MAX_ERROR_BODY_BYTES + 1) as nat) {
            None => r@ == preview_of(utf8_lossy(raw@), raw_truncated),
            Some(bytes) => r@ == preview_of(
                utf8_lossy(
                    if bytes.len() > MAX_ERROR_BODY_BYTES {
                        bytes.take(MAX_ERROR_BODY_BYTES as int)
                    } else {
                        bytes
                    },
                ),
                raw_truncated || bytes.len() > MAX_ERROR_BODY_BYTES,
            ),
        },
{
    if starts_with_gzip_magic(raw) {
        match gunzip_up_to(raw, MAX_ERROR_BODY_BYTES + 1) {
            Ok(bytes) => {
                let (body, decoded_truncated) = prefix_within_limit(bytes, MAX_ERROR_BODY_BYTES);
                let text = lossy_text(body.as_slice());
                return preview_text(text.as_str(), raw_truncated || decoded_truncated);
            },
            Err(_) => {},
        }
    }
    let text = lossy_text(raw);
    preview_text(text.as_str(), raw_truncated)
}

} // verus!
