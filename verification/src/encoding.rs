//! The byte encodings of file contents: between text under a named
//! encoding and raw bytes, both directions.
//!
//! The conventional scripting-platform file calls take and return text in
//! one of a handful of encodings; these are the exact translations they
//! use. Unknown encoding names are refused as invalid arguments.

use vstd::prelude::*;
use vstd::string::*;

use crate::errors::FsError;
use crate::errors::FsErrorKind;

verus! {

/// What one base64 character contributes: its six bits, or nothing for a
/// character outside the alphabet (padding included), which decoding skips.
pub open spec fn b64_val(c: char, url: bool) -> Option<u32> {
    let u = c as u32;
    if 65 <= u <= 90 {
        Some((u - 65) as u32)
    } else if 97 <= u <= 122 {
        Some((u - 97 + 26) as u32)
    } else if 48 <= u <= 57 {
        Some((u - 48 + 52) as u32)
    } else if (!url && c == '+') || (url && c == '-') {
        Some(62u32)
    } else if (!url && c == '/') || (url && c == '_') {
        Some(63u32)
    } else {
        None
    }
}

/// Base64 decoding as a six-bit accumulator run over the characters.
pub open spec fn b64_decode_go(
    s: Seq<char>,
    url: bool,
    bits: u32,
    acc: u32,
    out: Seq<u8>,
) -> Seq<u8>
    decreases s.len(),
{
    if s.len() == 0 {
        out
    } else {
        match b64_val(s[0], url) {
            None => b64_decode_go(s.drop_first(), url, bits, acc, out),
            Some(v) => {
                let acc2 = (acc << 6) | v;
                let bits2 = (bits + 6) as u32;
                if bits2 >= 8 {
                    let bits3 = (bits2 - 8) as u32;
                    let byte = ((acc2 >> bits3) & 0xff) as u8;
                    let acc3 = acc2 & (((1u32 << bits3) - 1) as u32);
                    b64_decode_go(s.drop_first(), url, bits3, acc3, out.push(byte))
                } else {
                    b64_decode_go(s.drop_first(), url, bits2, acc2, out)
                }
            },
        }
    }
}

/// The bytes a base64 string decodes to.
pub open spec fn b64_decode_spec(s: Seq<char>, url: bool) -> Seq<u8> {
    b64_decode_go(s, url, 0, 0, Seq::empty())
}

/// The value of one base64 character, if any.
fn b64_val_exec(c: char, url: bool) -> (r: Option<u32>)
    ensures
        r == b64_val(c, url),
{
    let u = c as u32;
    if 65 <= u && u <= 90 {
        Some(u - 65)
    } else if 97 <= u && u <= 122 {
        Some(u - 97 + 26)
    } else if 48 <= u && u <= 57 {
        Some(u - 48 + 52)
    } else if (!url && c == '+') || (url && c == '-') {
        Some(62)
    } else if (!url && c == '/') || (url && c == '_') {
        Some(63)
    } else {
        None
    }
}

/// Decodes a base64 string, standard or URL-safe alphabet; characters
/// outside the alphabet, padding included, are skipped.
pub fn base64_decode(s: &str, url_safe: bool) -> (r: Vec<u8>)
    ensures
        r@ == b64_decode_spec(s@, url_safe),
{
    let n = s.unicode_len();
    let mut out: Vec<u8> = Vec::new();
    let mut acc: u32 = 0;
    let mut bits: u32 = 0;
    let mut i: usize = 0;
    proof {
        assert(s@.skip(0) =~= s@);
        assert(out@ =~= Seq::<u8>::empty());
    }
    while i < n
        invariant
            i <= n,
            n == s@.len(),
            bits <= 6,
            bits % 2 == 0,
            b64_decode_go(s@.skip(i as int), url_safe, bits, acc, out@) == b64_decode_spec(
                s@,
                url_safe,
            ),
        decreases n - i,
    {
        let c = s.get_char(i);
        proof {
            assert(s@.skip(i as int)[0] == s@[i as int]);
            assert(s@.skip(i as int).drop_first() =~= s@.skip(i + 1));
        }
        match b64_val_exec(c, url_safe) {
            None => {},
            Some(v) => {
                acc = (acc << 6) | v;
                bits = bits + 6;
                if bits >= 8 {
                    bits = bits - 8;
                    proof {
                        assert(((acc >> bits) & 0xff) < 256) by (bit_vector);
                        assert(1u32 << bits >= 1) by (bit_vector)
                            requires
                                bits <= 6,
                        ;
                    }
                    out.push(((acc >> bits) & 0xff) as u8);
                    acc = acc & ((1u32 << bits) - 1);
                }
            },
        }
        i = i + 1;
    }
    proof {
        assert(s@.skip(n as int) =~= Seq::<char>::empty());
    }
    out
}

/// The base64 character of a six-bit value.
pub open spec fn b64_chr(v: u32, url: bool) -> char {
    if v < 26 {
        (65 + v) as char
    } else if v < 52 {
        (97 + (v - 26)) as char
    } else if v < 62 {
        (48 + (v - 52)) as char
    } else if v == 62 {
        if url {
            '-'
        } else {
            '+'
        }
    } else {
        if url {
            '_'
        } else {
            '/'
        }
    }
}

/// The base64 character of a six-bit value.
fn b64_chr_exec(v: u32, url: bool) -> (r: char)
    requires
        v < 64,
    ensures
        r == b64_chr(v, url),
{
    if v < 26 {
        ((65 + v) as u8) as char
    } else if v < 52 {
        ((97 + (v - 26)) as u8) as char
    } else if v < 62 {
        ((48 + (v - 52)) as u8) as char
    } else if v == 62 {
        if url {
            '-'
        } else {
            '+'
        }
    } else {
        if url {
            '_'
        } else {
            '/'
        }
    }
}

/// Base64 encoding, three input bytes to four characters, the last group
/// padded with `=` under the standard alphabet and left unpadded under the
/// URL-safe one.
pub open spec fn b64_encode_spec(data: Seq<u8>, url: bool) -> Seq<char>
    decreases data.len(),
{
    if data.len() == 0 {
        Seq::empty()
    } else {
        let b0 = data[0] as u32;
        let b1 = if data.len() > 1 {
            data[1] as u32
        } else {
            0
        };
        let b2 = if data.len() > 2 {
            data[2] as u32
        } else {
            0
        };
        let triple = ((b0 << 16) | (b1 << 8)) | b2;
        let g0 = seq![b64_chr((triple >> 18) & 63, url), b64_chr((triple >> 12) & 63, url)];
        let g1 = if data.len() > 1 {
            g0.push(b64_chr((triple >> 6) & 63, url))
        } else if !url {
            g0.push('=')
        } else {
            g0
        };
        let g2 = if data.len() > 2 {
            g1.push(b64_chr(triple & 63, url))
        } else if !url {
            g1.push('=')
        } else {
            g1
        };
        let rest = if data.len() > 3 {
            data.skip(3)
        } else {
            Seq::<u8>::empty()
        };
        g2 + b64_encode_spec(rest, url)
    }
}

/// Encodes bytes as base64, standard or URL-safe alphabet.
pub fn base64_encode(data: &[u8], url_safe: bool) -> (r: String)
    ensures
        r@ == b64_encode_spec(data@, url_safe),
{
    let n = data.len();
    let mut out = String::new();
    let mut i: usize = 0;
    proof {
        assert(data@.skip(0) =~= data@);
        assert(Seq::<char>::empty() + b64_encode_spec(data@, url_safe) =~= b64_encode_spec(
            data@,
            url_safe,
        ));
    }
    while i < n
        invariant
            i <= n,
            n == data@.len(),
            out@ + b64_encode_spec(data@.skip(i as int), url_safe) == b64_encode_spec(
                data@,
                url_safe,
            ),
        decreases n - i,
    {
        let ghost pre = data@.skip(i as int);
        proof {
            assert(pre[0] == data@[i as int]);
            if n - i > 1 {
                assert(pre[1] == data@[i + 1]);
            }
            if n - i > 2 {
                assert(pre[2] == data@[i + 2]);
            }
        }
        let b0 = data[i] as u32;
        let b1 = if n - i > 1 {
            data[i + 1] as u32
        } else {
            0
        };
        let b2 = if n - i > 2 {
            data[i + 2] as u32
        } else {
            0
        };
        let triple = ((b0 << 16) | (b1 << 8)) | b2;
        proof {
            assert((triple >> 18) & 63 < 64 && (triple >> 12) & 63 < 64 && (triple >> 6) & 63 < 64
                && triple & 63 < 64) by (bit_vector);
        }
        let ghost g0 = seq![
            b64_chr((triple >> 18) & 63, url_safe),
            b64_chr((triple >> 12) & 63, url_safe),
        ];
        let ghost g1 = if pre.len() > 1 {
            g0.push(b64_chr((triple >> 6) & 63, url_safe))
        } else if !url_safe {
            g0.push('=')
        } else {
            g0
        };
        let ghost g2 = if pre.len() > 2 {
            g1.push(b64_chr(triple & 63, url_safe))
        } else if !url_safe {
            g1.push('=')
        } else {
            g1
        };
        let ghost outg = out@;
        crate::paths::push_char(&mut out, b64_chr_exec((triple >> 18) & 63, url_safe));
        crate::paths::push_char(&mut out, b64_chr_exec((triple >> 12) & 63, url_safe));
        if n - i > 1 {
            crate::paths::push_char(&mut out, b64_chr_exec((triple >> 6) & 63, url_safe));
        } else if !url_safe {
            crate::paths::push_char(&mut out, '=');
        }
        if n - i > 2 {
            crate::paths::push_char(&mut out, b64_chr_exec(triple & 63, url_safe));
        } else if !url_safe {
            crate::paths::push_char(&mut out, '=');
        }
        let ghost next = if pre.len() > 3 {
            data@.skip(i + 3)
        } else {
            Seq::<u8>::empty()
        };
        proof {
            assert(out@ =~= outg + g2);
            assert(pre.len() == n - i);
            if pre.len() > 3 {
                assert(pre.skip(3) =~= data@.skip(i + 3));
            }
            assert(b64_encode_spec(pre, url_safe) == g2 + b64_encode_spec(next, url_safe));
            assert((outg + g2) + b64_encode_spec(next, url_safe) =~= outg + (g2 + b64_encode_spec(
                next,
                url_safe,
            )));
        }
        if n - i > 3 {
            i = i + 3;
        } else {
            i = n;
        }
    }
    proof {
        assert(data@.skip(n as int) =~= Seq::<u8>::empty());
        assert(out@ + Seq::<char>::empty() =~= out@);
    }
    out
}

/// The value of one hex digit, if any.
pub open spec fn hex_val_spec(c: char) -> Option<u8> {
    let u = c as u32;
    if 48 <= u <= 57 {
        Some((u - 48) as u8)
    } else if 97 <= u <= 102 {
        Some((u - 97 + 10) as u8)
    } else if 65 <= u <= 70 {
        Some((u - 65 + 10) as u8)
    } else {
        None
    }
}

/// The value of one hex digit, if any.
pub fn hex_val(c: char) -> (r: Option<u8>)
    ensures
        r == hex_val_spec(c),
{
    let u = c as u32;
    if 48 <= u && u <= 57 {
        Some((u - 48) as u8)
    } else if 97 <= u && u <= 102 {
        Some((u - 97 + 10) as u8)
    } else if 65 <= u && u <= 70 {
        Some((u - 65 + 10) as u8)
    } else {
        None
    }
}

/// An ASCII whitespace character.
pub open spec fn is_space(c: char) -> bool {
    c == ' ' || c == '\t' || c == '\n' || c == '\r'
}

/// The string with leading whitespace dropped.
pub open spec fn trim_front(s: Seq<char>) -> Seq<char>
    decreases s.len(),
{
    if s.len() > 0 && is_space(s[0]) {
        trim_front(s.drop_first())
    } else {
        s
    }
}

/// The string with trailing whitespace dropped.
pub open spec fn trim_back(s: Seq<char>) -> Seq<char>
    decreases s.len(),
{
    if s.len() > 0 && is_space(s.last()) {
        trim_back(s.drop_last())
    } else {
        s
    }
}

/// The string with surrounding whitespace dropped.
pub open spec fn trim_spec(s: Seq<char>) -> Seq<char> {
    trim_back(trim_front(s))
}

proof fn lemma_trim_front_at(s: Seq<char>, a: int)
    requires
        0 <= a <= s.len(),
        forall|j: int| 0 <= j < a ==> is_space(#[trigger] s[j]),
        a < s.len() ==> !is_space(s[a]),
    ensures
        trim_front(s) == s.skip(a),
    decreases a,
{
    if a == 0 {
        assert(s.skip(0) =~= s);
        if s.len() > 0 && is_space(s[0]) {
            assert(false);
        }
    } else {
        assert(is_space(s[0]));
        let d = s.drop_first();
        assert(forall|j: int| 0 <= j < a - 1 ==> #[trigger] d[j] == s[j + 1]);
        lemma_trim_front_at(d, a - 1);
        assert(d.skip(a - 1) =~= s.skip(a));
    }
}

proof fn lemma_trim_back_at(s: Seq<char>, b: int)
    requires
        0 <= b <= s.len(),
        forall|j: int| b <= j < s.len() ==> is_space(#[trigger] s[j]),
        b > 0 ==> !is_space(s[b - 1]),
    ensures
        trim_back(s) == s.take(b),
    decreases s.len() - b,
{
    if b == s.len() {
        assert(s.take(b) =~= s);
        if s.len() > 0 && is_space(s.last()) {
            assert(false);
        }
    } else {
        assert(is_space(s.last()));
        let d = s.drop_last();
        assert(forall|j: int| 0 <= j < d.len() ==> #[trigger] d[j] == s[j]);
        lemma_trim_back_at(d, b);
        assert(d.take(b) =~= s.take(b));
    }
}

/// An ASCII whitespace character.
fn is_space_exec(c: char) -> (r: bool)
    ensures
        r == is_space(c),
{
    c == ' ' || c == '\t' || c == '\n' || c == '\r'
}

/// Drops surrounding whitespace from a string slice.
fn trim_str(s: &str) -> (r: &str)
    ensures
        r@ == trim_spec(s@),
{
    let n = s.unicode_len();
    let mut a: usize = 0;
    let mut go = true;
    while go && a < n
        invariant
            a <= n,
            n == s@.len(),
            forall|j: int| 0 <= j < a ==> is_space(#[trigger] s@[j]),
            !go ==> a < n && !is_space(s@[a as int]),
        decreases n - a + (if go {
            1int
        } else {
            0int
        }),
    {
        if is_space_exec(s.get_char(a)) {
            a = a + 1;
        } else {
            go = false;
        }
    }
    let mut b: usize = n;
    let mut go2 = true;
    while go2 && b > a
        invariant
            a <= b <= n,
            n == s@.len(),
            forall|j: int| b <= j < n ==> is_space(#[trigger] s@[j]),
            !go2 ==> b > a && !is_space(s@[b - 1]),
            forall|j: int| 0 <= j < a ==> is_space(#[trigger] s@[j]),
            go ==> a == n,
            !go ==> a < n && !is_space(s@[a as int]),
        decreases b - a + (if go2 {
            1int
        } else {
            0int
        }),
    {
        if is_space_exec(s.get_char(b - 1)) {
            b = b - 1;
        } else {
            go2 = false;
        }
    }
    proof {
        lemma_trim_front_at(s@, a as int);
        let f = s@.skip(a as int);
        assert(forall|j: int| b - a <= j < f.len() ==> is_space(#[trigger] f[j])) by {
            assert(forall|j: int| 0 <= j < f.len() ==> #[trigger] f[j] == s@[j + a]);
        }
        if b > a {
            assert(f[b - a - 1] == s@[b - 1]);
            assert(!is_space(f[b - a - 1]));
        }
        lemma_trim_back_at(f, (b - a) as int);
        assert(f.take((b - a) as int) =~= s@.subrange(a as int, b as int));
    }
    s.substring_char(a, b)
}

/// Are the characters an even run of hex digits?
pub open spec fn hex_ok(s: Seq<char>) -> bool {
    s.len() % 2 == 0 && (forall|k: int| 0 <= k < s.len() ==> hex_val_spec(#[trigger] s[k]) is Some)
}

/// The bytes an even run of hex digits denotes, two digits per byte.
pub open spec fn hex_bytes_go(s: Seq<char>) -> Seq<u8>
    decreases s.len(),
{
    if s.len() < 2 {
        Seq::empty()
    } else {
        match (hex_val_spec(s[0]), hex_val_spec(s[1])) {
            (Some(h), Some(l)) => seq![(h << 4) | l] + hex_bytes_go(s.skip(2)),
            _ => hex_bytes_go(s.skip(2)),
        }
    }
}

/// Decodes a hex string, surrounding whitespace allowed. Fails as an
/// invalid argument exactly when the trimmed string has odd length or a
/// character that is no hex digit.
pub fn hex_decode(s: &str) -> (r: Result<Vec<u8>, FsError>)
    ensures
        (r is Ok) <==> hex_ok(trim_spec(s@)),
        r matches Ok(v) ==> v@ == hex_bytes_go(trim_spec(s@)),
        r matches Err(e) ==> e.kind == FsErrorKind::InvalidArgument,
{
    let t = trim_str(s);
    let m = t.unicode_len();
    if m % 2 != 0 {
        return Err(crate::errors::fs_error(FsErrorKind::InvalidArgument, "hex", s));
    }
    let mut out: Vec<u8> = Vec::new();
    let mut i: usize = 0;
    proof {
        assert(t@.skip(0) =~= t@);
        assert(Seq::<u8>::empty() + hex_bytes_go(t@) =~= hex_bytes_go(t@));
    }
    while i < m
        invariant
            i <= m,
            i % 2 == 0,
            m % 2 == 0,
            m == t@.len(),
            t@ == trim_spec(s@),
            forall|k: int| 0 <= k < i ==> hex_val_spec(#[trigger] t@[k]) is Some,
            out@ + hex_bytes_go(t@.skip(i as int)) == hex_bytes_go(t@),
        decreases m - i,
    {
        let c1 = t.get_char(i);
        let c2 = t.get_char(i + 1);
        proof {
            assert(t@.skip(i as int)[0] == t@[i as int]);
            assert(t@.skip(i as int)[1] == t@[i + 1]);
            assert(t@.skip(i as int).skip(2) =~= t@.skip(i + 2));
        }
        let h = match hex_val(c1) {
            Some(h) => h,
            None => {
                return Err(crate::errors::fs_error(FsErrorKind::InvalidArgument, "hex", s));
            },
        };
        let l = match hex_val(c2) {
            Some(l) => l,
            None => {
                return Err(crate::errors::fs_error(FsErrorKind::InvalidArgument, "hex", s));
            },
        };
        proof {
            assert(h < 16 && l < 16);
            assert((h << 4) | l < 256) by (bit_vector);
        }
        let ghost outg = out@;
        out.push((h << 4) | l);
        proof {
            assert(out@ =~= outg + seq![(h << 4) | l]);
            assert((outg + seq![(h << 4) | l]) + hex_bytes_go(t@.skip(i + 2)) =~= outg + (seq![
                (h << 4) | l,
            ] + hex_bytes_go(t@.skip(i + 2))));
        }
        i = i + 2;
    }
    proof {
        assert(t@.skip(m as int) =~= Seq::<char>::empty());
        assert(out@ + Seq::<u8>::empty() =~= out@);
    }
    Ok(out)
}

/// Decoded file contents: text, or raw bytes when no encoding was named.
pub enum Decoded {
    Text(String),
    Bytes(Vec<u8>),
}

/// Decodes bytes as UTF-8.
///
/// Relies on `String::from_utf8`: it succeeds exactly on well-formed UTF-8
/// and returns the string those bytes encode.
#[verifier::external_body]
fn utf8_to_string(data: Vec<u8>) -> (r: Option<String>)
    ensures
        (r is Some) == vstd::utf8::valid_utf8(data@),
        r matches Some(s2) ==> vstd::utf8::encode_utf8(s2@) == data@,
{
    match String::from_utf8(data) {
        Ok(s2) => Some(s2),
        Err(_) => None,
    }
}

/// Bytes with their high bit cleared, one for one.
pub open spec fn ascii_mask_spec(bs: Seq<u8>) -> Seq<u8> {
    Seq::new(bs.len(), |i: int| bs[i] & 0x7f)
}

/// The low byte of each character, one for one.
pub open spec fn latin1_bytes_spec(sc: Seq<char>) -> Seq<u8> {
    Seq::new(sc.len(), |i: int| ((sc[i] as u32) & 0xff) as u8)
}

/// Each byte with its high bit cleared, read as a character.
pub open spec fn ascii_chars_spec(bs: Seq<u8>) -> Seq<char> {
    Seq::new(bs.len(), |i: int| ((bs[i] & 0x7f) as u32) as char)
}

/// Each byte read as the character of its value.
pub open spec fn latin1_chars_spec(bs: Seq<u8>) -> Seq<char> {
    Seq::new(bs.len(), |i: int| (bs[i] as u32) as char)
}

/// The hex digit of a four-bit value, lower case.
pub open spec fn hex_chr(v: u8) -> char {
    if v < 10 {
        ((48 + v) as u32) as char
    } else {
        ((97 + (v - 10)) as u32) as char
    }
}

/// The lower-case hex form of bytes, two digits per byte.
pub open spec fn hex_str_spec(bs: Seq<u8>) -> Seq<char>
    decreases bs.len(),
{
    if bs.len() == 0 {
        Seq::empty()
    } else {
        seq![hex_chr(bs[0] >> 4), hex_chr(bs[0] & 0x0f)] + hex_str_spec(bs.drop_first())
    }
}

/// The encoding a name resolves to, `None` for an unknown name. The
/// variants match the conventional scripting-platform encoding names.
pub open spec fn encoding_view(encoding: Option<&str>) -> Option<Seq<char>> {
    match encoding {
        None => None,
        Some(x) => Some(x@),
    }
}

/// Turns text under a named encoding into the bytes to write.
///
/// With no encoding, or `utf8`/`utf-8`, the text's UTF-8 bytes; `ascii`
/// masks each byte's high bit; `latin1`/`binary` takes each character's low
/// byte; `base64`/`base64url`/`hex` decode the text; any other name is
/// refused as an invalid argument, as is text that is no hex under `hex`.
pub fn encode_string(s: &str, encoding: Option<&str>) -> (r: Result<Vec<u8>, FsError>)
    ensures
        ({
            let e = encoding_view(encoding);
            if e is None || e == Some("utf8"@) || e == Some("utf-8"@) {
                r matches Ok(v) && v@ == vstd::utf8::encode_utf8(s@)
            } else if e == Some("ascii"@) {
                r matches Ok(v) && v@ == ascii_mask_spec(vstd::utf8::encode_utf8(s@))
            } else if e == Some("latin1"@) || e == Some("binary"@) {
                r matches Ok(v) && v@ == latin1_bytes_spec(s@)
            } else if e == Some("base64"@) {
                r matches Ok(v) && v@ == b64_decode_spec(s@, false)
            } else if e == Some("base64url"@) {
                r matches Ok(v) && v@ == b64_decode_spec(s@, true)
            } else if e == Some("hex"@) {
                &&& (r is Ok) <==> hex_ok(trim_spec(s@))
                &&& (r matches Ok(v) ==> v@ == hex_bytes_go(trim_spec(s@)))
                &&& (r matches Err(err) ==> err.kind == FsErrorKind::InvalidArgument)
            } else {
                r matches Err(err) && err.kind == FsErrorKind::InvalidArgument
            }
        }),
{
    let enc = match encoding {
        None => {
            return Ok(s.as_bytes_vec());
        },
        Some(x) => x,
    };
    if crate::paths::str_eq(enc, "utf8") || crate::paths::str_eq(enc, "utf-8") {
        Ok(s.as_bytes_vec())
    } else if crate::paths::str_eq(enc, "ascii") {
        let bs = s.as_bytes_vec();
        let mut out: Vec<u8> = Vec::new();
        let mut i: usize = 0;
        while i < bs.len()
            invariant
                i <= bs@.len(),
                out@.len() == i,
                forall|j: int| 0 <= j < i ==> out@[j] == (bs@[j] & 0x7f),
            decreases bs@.len() - i,
        {
            out.push(bs[i] & 0x7f);
            i = i + 1;
        }
        proof {
            assert(out@ =~= ascii_mask_spec(bs@));
        }
        Ok(out)
    } else if crate::paths::str_eq(enc, "latin1") || crate::paths::str_eq(enc, "binary") {
        let n = s.unicode_len();
        let mut out: Vec<u8> = Vec::new();
        let mut i: usize = 0;
        while i < n
            invariant
                i <= n,
                n == s@.len(),
                out@.len() == i,
                forall|j: int| 0 <= j < i ==> out@[j] == (((s@[j] as u32) & 0xff) as u8),
            decreases n - i,
        {
            let c = s.get_char(i);
            let u = c as u32;
            proof {
                assert(u & 0xff < 256) by (bit_vector);
            }
            out.push((u & 0xff) as u8);
            i = i + 1;
        }
        proof {
            assert(out@ =~= latin1_bytes_spec(s@));
        }
        Ok(out)
    } else if crate::paths::str_eq(enc, "base64") {
        Ok(base64_decode(s, false))
    } else if crate::paths::str_eq(enc, "base64url") {
        Ok(base64_decode(s, true))
    } else if crate::paths::str_eq(enc, "hex") {
        hex_decode(s)
    } else {
        Err(crate::errors::fs_error(FsErrorKind::InvalidArgument, "encoding", enc))
    }
}

/// Turns bytes read from a file into the caller's form under a named
/// encoding.
///
/// With no encoding the bytes come back as they are; `utf8`/`utf-8`
/// decodes them and refuses ill-formed UTF-8; `ascii` and `latin1`/
/// `binary` read each byte as a character, the former with its high bit
/// cleared; `base64`/`base64url`/`hex` encode the bytes as text; any other
/// name is refused as an invalid argument.
pub fn decode_data(data: Vec<u8>, encoding: Option<&str>) -> (r: Result<Decoded, FsError>)
    ensures
        ({
            let e = encoding_view(encoding);
            let dv = data@;
            if e is None {
                r matches Ok(Decoded::Bytes(v)) && v@ == dv
            } else if e == Some("utf8"@) || e == Some("utf-8"@) {
                &&& (r is Ok) <==> vstd::utf8::valid_utf8(dv)
                &&& (r matches Ok(d) ==> d matches Decoded::Text(s2)
                    && vstd::utf8::encode_utf8(s2@) == dv)
                &&& (r matches Err(err) ==> err.kind == FsErrorKind::InvalidArgument)
            } else if e == Some("ascii"@) {
                r matches Ok(Decoded::Text(s2)) && s2@ == ascii_chars_spec(dv)
            } else if e == Some("latin1"@) || e == Some("binary"@) {
                r matches Ok(Decoded::Text(s2)) && s2@ == latin1_chars_spec(dv)
            } else if e == Some("base64"@) {
                r matches Ok(Decoded::Text(s2)) && s2@ == b64_encode_spec(dv, false)
            } else if e == Some("base64url"@) {
                r matches Ok(Decoded::Text(s2)) && s2@ == b64_encode_spec(dv, true)
            } else if e == Some("hex"@) {
                r matches Ok(Decoded::Text(s2)) && s2@ == hex_str_spec(dv)
            } else {
                r matches Err(err) && err.kind == FsErrorKind::InvalidArgument
            }
        }),
{
    let enc = match encoding {
        None => {
            return Ok(Decoded::Bytes(data));
        },
        Some(x) => x,
    };
    if crate::paths::str_eq(enc, "utf8") || crate::paths::str_eq(enc, "utf-8") {
        match utf8_to_string(data) {
            Some(s2) => Ok(Decoded::Text(s2)),
            None => Err(crate::errors::fs_error(FsErrorKind::InvalidArgument, "decode", enc)),
        }
    } else if crate::paths::str_eq(enc, "ascii") {
        let mut out = String::new();
        let mut i: usize = 0;
        while i < data.len()
            invariant
                i <= data@.len(),
                out@.len() == i,
                forall|j: int| 0 <= j < i ==> out@[j] == (((data@[j] & 0x7f) as u32) as char),
            decreases data@.len() - i,
        {
            crate::paths::push_char(&mut out, (data[i] & 0x7f) as char);
            i = i + 1;
        }
        proof {
            assert(out@ =~= ascii_chars_spec(data@));
        }
        Ok(Decoded::Text(out))
    } else if crate::paths::str_eq(enc, "latin1") || crate::paths::str_eq(enc, "binary") {
        let mut out = String::new();
        let mut i: usize = 0;
        while i < data.len()
            invariant
                i <= data@.len(),
                out@.len() == i,
                forall|j: int| 0 <= j < i ==> out@[j] == ((data@[j] as u32) as char),
            decreases data@.len() - i,
        {
            crate::paths::push_char(&mut out, data[i] as char);
            i = i + 1;
        }
        proof {
            assert(out@ =~= latin1_chars_spec(data@));
        }
        Ok(Decoded::Text(out))
    } else if crate::paths::str_eq(enc, "base64") {
        Ok(Decoded::Text(base64_encode(data.as_slice(), false)))
    } else if crate::paths::str_eq(enc, "base64url") {
        Ok(Decoded::Text(base64_encode(data.as_slice(), true)))
    } else if crate::paths::str_eq(enc, "hex") {
        let mut out = String::new();
        let mut i: usize = 0;
        proof {
            assert(data@.skip(0) =~= data@);
            assert(Seq::<char>::empty() + hex_str_spec(data@) =~= hex_str_spec(data@));
        }
        while i < data.len()
            invariant
                i <= data@.len(),
                out@ + hex_str_spec(data@.skip(i as int)) == hex_str_spec(data@),
            decreases data@.len() - i,
        {
            let b = data[i];
            proof {
                assert(data@.skip(i as int)[0] == data@[i as int]);
                assert(data@.skip(i as int).drop_first() =~= data@.skip(i + 1));
                assert(b >> 4 < 16 && b & 0x0f < 16) by (bit_vector);
            }
            let hi = b >> 4;
            let lo = b & 0x0f;
            let ghost outg = out@;
            if hi < 10 {
                crate::paths::push_char(&mut out, ((48 + hi) as u8) as char);
            } else {
                crate::paths::push_char(&mut out, ((97 + (hi - 10)) as u8) as char);
            }
            if lo < 10 {
                crate::paths::push_char(&mut out, ((48 + lo) as u8) as char);
            } else {
                crate::paths::push_char(&mut out, ((97 + (lo - 10)) as u8) as char);
            }
            proof {
                assert(out@ =~= outg + seq![hex_chr(b >> 4), hex_chr(b & 0x0f)]);
                assert((outg + seq![hex_chr(b >> 4), hex_chr(b & 0x0f)]) + hex_str_spec(
                    data@.skip(i + 1),
                ) =~= outg + (seq![hex_chr(b >> 4), hex_chr(b & 0x0f)] + hex_str_spec(
                    data@.skip(i + 1),
                )));
            }
            i = i + 1;
        }
        proof {
            assert(data@.skip(data@.len() as int) =~= Seq::<u8>::empty());
            assert(out@ + Seq::<char>::empty() =~= out@);
        }
        Ok(Decoded::Text(out))
    } else {
        Err(crate::errors::fs_error(FsErrorKind::InvalidArgument, "decode", enc))
    }
}

/// One alphabet character decodes back to its six-bit value.
proof fn lemma_b64_val_chr(v: u32, url: bool)
    requires
        v < 64,
    ensures
        b64_val(b64_chr(v, url), url) == Some(v),
{
}

/// One step of the accumulator recovers each byte of a group: the four
/// six-bit values of a packed triple give the three bytes back, and the
/// accumulator drains to zero after a full group.
proof fn lemma_b64_bits(b0: u32, b1: u32, b2: u32, triple: u32)
    requires
        b0 < 256,
        b1 < 256,
        b2 < 256,
        triple == ((b0 << 16) | (b1 << 8)) | b2,
    ensures
        ({
            let v0 = (triple >> 18) & 63;
            let v1 = (triple >> 12) & 63;
            let v2 = (triple >> 6) & 63;
            let v3 = triple & 63;
            let e0 = (v0 << 6) | v1;
            let e1 = ((e0 & 0xf) << 6) | v2;
            let e2 = ((e1 & 0x3) << 6) | v3;
            &&& (e0 >> 4) & 0xff == b0
            &&& (e1 >> 2) & 0xff == b1
            &&& (e2 >> 0) & 0xff == b2
        }),
{
    let v0 = (triple >> 18) & 63;
    let v1 = (triple >> 12) & 63;
    let v2 = (triple >> 6) & 63;
    let v3 = triple & 63;
    let e0 = (v0 << 6) | v1;
    let e1 = ((e0 & 0xf) << 6) | v2;
    let e2 = ((e1 & 0x3) << 6) | v3;
    assert((e0 >> 4) & 0xff == b0) by (bit_vector)
        requires
            b0 < 256,
            b1 < 256,
            b2 < 256,
            triple == ((b0 << 16) | (b1 << 8)) | b2,
            v0 == (triple >> 18) & 63,
            v1 == (triple >> 12) & 63,
            e0 == (v0 << 6) | v1,
    ;
    assert((e1 >> 2) & 0xff == b1) by (bit_vector)
        requires
            b0 < 256,
            b1 < 256,
            b2 < 256,
            triple == ((b0 << 16) | (b1 << 8)) | b2,
            v0 == (triple >> 18) & 63,
            v1 == (triple >> 12) & 63,
            v2 == (triple >> 6) & 63,
            e0 == (v0 << 6) | v1,
            e1 == ((e0 & 0xf) << 6) | v2,
    ;
    assert((e2 >> 0) & 0xff == b2) by (bit_vector)
        requires
            b0 < 256,
            b1 < 256,
            b2 < 256,
            triple == ((b0 << 16) | (b1 << 8)) | b2,
            v0 == (triple >> 18) & 63,
            v1 == (triple >> 12) & 63,
            v2 == (triple >> 6) & 63,
            v3 == triple & 63,
            e0 == (v0 << 6) | v1,
            e1 == ((e0 & 0xf) << 6) | v2,
            e2 == ((e1 & 0x3) << 6) | v3,
    ;
}

/// Decoding what encoding produced, from a clean accumulator, appends
/// exactly the encoded bytes.
#[verifier::rlimit(80)]
proof fn lemma_b64_round_go(data: Seq<u8>, url: bool, out: Seq<u8>)
    ensures
        b64_decode_go(b64_encode_spec(data, url), url, 0, 0, out) == out + data,
    decreases data.len(),
{
    if data.len() == 0 {
        assert(out + data =~= out);
    } else {
        let b0 = data[0] as u32;
        let b1 = if data.len() > 1 {
            data[1] as u32
        } else {
            0
        };
        let b2 = if data.len() > 2 {
            data[2] as u32
        } else {
            0
        };
        let triple = ((b0 << 16) | (b1 << 8)) | b2;
        let v0 = (triple >> 18) & 63;
        let v1 = (triple >> 12) & 63;
        let v2 = (triple >> 6) & 63;
        let v3 = triple & 63;
        assert((triple >> 18) & 63 < 64 && (triple >> 12) & 63 < 64 && (triple >> 6) & 63 < 64
            && triple & 63 < 64) by (bit_vector);
        lemma_b64_val_chr(v0, url);
        lemma_b64_val_chr(v1, url);
        lemma_b64_val_chr(v2, url);
        lemma_b64_val_chr(v3, url);
        lemma_b64_bits(b0, b1, b2, triple);
        let c0 = b64_chr(v0, url);
        let c1 = b64_chr(v1, url);
        let c2 = b64_chr(v2, url);
        let c3 = b64_chr(v3, url);
        assert(b64_val('=', url) is None);
        let rest = if data.len() > 3 {
            data.skip(3)
        } else {
            Seq::<u8>::empty()
        };
        let encr = b64_encode_spec(rest, url);
        let enc = b64_encode_spec(data, url);
        let e0 = (v0 << 6) | v1;
        let e1 = ((e0 & 0xf) << 6) | v2;
        let e2 = ((e1 & 0x3) << 6) | v3;
        // small arithmetic facts the accumulator steps use
        assert((0u32 << 6) | v0 == v0) by (bit_vector);
        assert((1u32 << 4) - 1 == 0xf && (1u32 << 2) - 1 == 0x3 && (1u32 << 0) - 1 == 0)
            by (bit_vector);
        assert(e2 & 0u32 == 0) by (bit_vector);
        assert(((e0 >> 4) & 0xff) as u8 == data[0]);
        if data.len() > 1 {
            assert(((e1 >> 2) & 0xff) as u8 == data[1]);
        }
        if data.len() > 2 {
            assert(((e2 >> 0) & 0xff) as u8 == data[2]);
        }
        if data.len() > 2 {
            // a full group of four characters
            let cs = seq![c0, c1, c2, c3];
            assert(enc =~= cs + encr);
            let s0 = cs + encr;
            let s1 = cs.skip(1) + encr;
            let s2 = cs.skip(2) + encr;
            let s3 = cs.skip(3) + encr;
            assert(s0[0] == c0 && s0.drop_first() =~= s1);
            assert(s1[0] == c1 && s1.drop_first() =~= s2);
            assert(s2[0] == c2 && s2.drop_first() =~= s3);
            assert(s3[0] == c3 && s3.drop_first() =~= encr);
            let out1 = out.push(data[0]);
            let out2 = out1.push(data[1]);
            let out3 = out2.push(data[2]);
            assert(b64_decode_go(s0, url, 0, 0, out) == b64_decode_go(s1, url, 6, v0, out));
            assert(b64_decode_go(s1, url, 6, v0, out) == b64_decode_go(s2, url, 4, e0 & 0xf, out1));
            assert(b64_decode_go(s2, url, 4, e0 & 0xf, out1) == b64_decode_go(
                s3,
                url,
                2,
                e1 & 0x3,
                out2,
            ));
            assert(b64_decode_go(s3, url, 2, e1 & 0x3, out2) == b64_decode_go(
                encr,
                url,
                0,
                0,
                out3,
            ));
            lemma_b64_round_go(rest, url, out3);
            assert(out3 + rest =~= out + data);
        } else if data.len() == 2 {
            // three characters, one padding character unless URL-safe
            let cs = if url {
                seq![c0, c1, c2]
            } else {
                seq![c0, c1, c2, '=']
            };
            assert(encr =~= Seq::<char>::empty());
            assert(enc =~= cs);
            let s1 = cs.skip(1);
            let s2 = cs.skip(2);
            let s3 = cs.skip(3);
            assert(cs[0] == c0 && cs.drop_first() =~= s1);
            assert(s1[0] == c1 && s1.drop_first() =~= s2);
            assert(s2[0] == c2 && s2.drop_first() =~= s3);
            let out1 = out.push(data[0]);
            let out2 = out1.push(data[1]);
            assert(b64_decode_go(cs, url, 0, 0, out) == b64_decode_go(s1, url, 6, v0, out));
            assert(b64_decode_go(s1, url, 6, v0, out) == b64_decode_go(s2, url, 4, e0 & 0xf, out1));
            assert(b64_decode_go(s2, url, 4, e0 & 0xf, out1) == b64_decode_go(
                s3,
                url,
                2,
                e1 & 0x3,
                out2,
            ));
            if !url {
                assert(s3[0] == '=' && s3.drop_first() =~= Seq::<char>::empty());
                assert(b64_decode_go(s3, url, 2, e1 & 0x3, out2) == b64_decode_go(
                    Seq::<char>::empty(),
                    url,
                    2,
                    e1 & 0x3,
                    out2,
                ));
                assert(b64_decode_go(Seq::<char>::empty(), url, 2, e1 & 0x3, out2) == out2);
            } else {
                assert(s3 =~= Seq::<char>::empty());
            }
            assert(out2 =~= out + data);
        } else {
            // two characters, two padding characters unless URL-safe
            let cs = if url {
                seq![c0, c1]
            } else {
                seq![c0, c1, '=', '=']
            };
            assert(encr =~= Seq::<char>::empty());
            assert(enc =~= cs);
            let s1 = cs.skip(1);
            let s2 = cs.skip(2);
            let s3 = cs.skip(3);
            assert(cs[0] == c0 && cs.drop_first() =~= s1);
            assert(s1[0] == c1 && s1.drop_first() =~= s2);
            let out1 = out.push(data[0]);
            assert(b64_decode_go(cs, url, 0, 0, out) == b64_decode_go(s1, url, 6, v0, out));
            assert(b64_decode_go(s1, url, 6, v0, out) == b64_decode_go(s2, url, 4, e0 & 0xf, out1));
            if !url {
                assert(s2[0] == '=' && s2.drop_first() =~= s3);
                assert(s3[0] == '=' && s3.drop_first() =~= Seq::<char>::empty());
                assert(b64_decode_go(s2, url, 4, e0 & 0xf, out1) == b64_decode_go(
                    s3,
                    url,
                    4,
                    e0 & 0xf,
                    out1,
                ));
                assert(b64_decode_go(s3, url, 4, e0 & 0xf, out1) == b64_decode_go(
                    Seq::<char>::empty(),
                    url,
                    4,
                    e0 & 0xf,
                    out1,
                ));
                assert(b64_decode_go(Seq::<char>::empty(), url, 4, e0 & 0xf, out1) == out1);
            } else {
                assert(s2 =~= Seq::<char>::empty());
            }
            assert(out1 =~= out + data);
        }
    }
}

/// Encoding then decoding is the identity: the bytes a base64 encoding of
/// any data decodes to are that data, under either alphabet.
pub proof fn lemma_b64_round_trip(data: Seq<u8>, url: bool)
    ensures
        b64_decode_spec(b64_encode_spec(data, url), url) == data,
{
    lemma_b64_round_go(data, url, Seq::empty());
    assert(Seq::<u8>::empty() + data =~= data);
}

} // verus!
