//! Payload decoding for capture requests. The order of the routes matters:
//! a form's `data` field first, then one strict Base64 wrapper, then gzip by its
//! magic bytes whatever the client claimed, then LZ-string by hint, then plain UTF-8.
use std::io::Read;

use base64::engine::general_purpose::STANDARD;
use base64::Engine;
use vstd::prelude::*;
use vstd::utf8::*;

use crate::capture::lz::{decompress_lz64_bounded, lz_decoded};
use crate::order::views;
use crate::rows::append;
use crate::text::{bytes_equal, chars_of, contains_char, same, string_of};

verus! {

/// The ceiling on decompressed size.
pub const MAX_DECOMPRESSED_BYTES: usize = 67108864;

/// Why a payload did not decode.
#[derive(Debug, Clone, Copy, PartialEq, Eq, Structural)]
pub enum DecodeError {
    /// No accepted route leads to UTF-8 text.
    Undecodable,
    /// The decompressed size exceeds the ceiling.
    TooLarge,
}

/// What `base64`'s standard engine decodes a byte string to, if it accepts it.
pub uninterp spec fn base64_decoded(payload: Seq<u8>) -> Option<Seq<u8>>;

/// `base64::engine::general_purpose::STANDARD.decode`: the result is a function of the payload.
#[verifier::external_body]
fn base64_decode(payload: &[u8]) -> (r: Option<Vec<u8>>)
    ensures
        match r {
            Some(bytes) => base64_decoded(payload@) == Some(bytes@),
            None => base64_decoded(payload@) is None,
        },
{
    STANDARD.decode(payload).ok()
}

/// `std::string::String::from_utf8`: bytes that are valid UTF-8 become the string that they encode,
/// all others are refused.
#[verifier::external_body]
pub(crate) fn utf8_text(bytes: Vec<u8>) -> (r: Option<String>)
    ensures
        match r {
            Some(text) => valid_utf8(bytes@) && encode_utf8(text@) == bytes@,
            None => !valid_utf8(bytes@),
        },
{
    String::from_utf8(bytes).ok()
}

/// A gzip decoder over a byte slice.
#[verifier::external_type_specification]
#[verifier::external_body]
#[verifier::reject_recursive_types(R)]
pub struct ExGzDecoder<R>(flate2::read::GzDecoder<R>);

/// The bytes that a gzip decoder has yet to deliver before it ends or fails.
pub uninterp spec fn gzip_pending(decoder: flate2::read::GzDecoder<&[u8]>) -> Seq<u8>;

/// Whether a gzip decoder ends without a failure.
pub uninterp spec fn gzip_sound(decoder: flate2::read::GzDecoder<&[u8]>) -> bool;

/// The bytes that decompressing a payload delivers before it ends or fails.
pub uninterp spec fn gunzipped(payload: Seq<u8>) -> Seq<u8>;

/// Whether decompressing a payload ends without a failure.
pub uninterp spec fn gunzips(payload: Seq<u8>) -> bool;

/// `flate2::read::GzDecoder::new`: what the decoder delivers is a function of the payload.
#[verifier::external_body]
fn open_gzip<'a>(payload: &'a [u8]) -> (r: flate2::read::GzDecoder<&'a [u8]>)
    ensures
        gzip_pending(r) == gunzipped(payload@),
        gzip_sound(r) == gunzips(payload@),
{
    flate2::read::GzDecoder::new(payload)
}

/// `Read::read` of `flate2::read::GzDecoder` into a buffer of 64 KiB: a piece of what is pending, an
/// empty piece only at the end of a stream without a failure, an error only where the stream fails.
#[verifier::external_body]
fn read_gzip<'a>(decoder: &mut flate2::read::GzDecoder<&'a [u8]>) -> (r: Option<Vec<u8>>)
    ensures
        match r {
            Some(piece) => {
                &&& gzip_pending(*old(decoder)) == piece@ + gzip_pending(*final(decoder))
                &&& gzip_sound(*final(decoder)) == gzip_sound(*old(decoder))
                &&& piece@.len() == 0 ==> gzip_pending(*old(decoder)).len() == 0 && gzip_sound(
                    *old(decoder),
                )
                &&& piece@.len() <= 65536
            },
            None => gzip_pending(*old(decoder)).len() == 0 && !gzip_sound(*old(decoder)),
        },
{
    let mut chunk = vec![0u8; 65536];
    let n = decoder.read(&mut chunk).ok()?;
    chunk.truncate(n);
    Some(chunk)
}

/// What decompressing a payload under the ceiling gives.
pub open spec fn gunzip_result(payload: Seq<u8>) -> Result<Seq<u8>, DecodeError> {
    if gunzipped(payload).len() > MAX_DECOMPRESSED_BYTES {
        Err(DecodeError::TooLarge)
    } else if !gunzips(payload) {
        Err(DecodeError::Undecodable)
    } else {
        Ok(gunzipped(payload))
    }
}

/// Decompresses gzip piece by piece, and stops as soon as the ceiling is passed.
pub fn gunzip_bounded(payload: &[u8]) -> (r: Result<Vec<u8>, DecodeError>)
    ensures
        match gunzip_result(payload@) {
            Ok(bytes) => r matches Ok(v) && v@ == bytes,
            Err(e) => r == Err::<Vec<u8>, _>(e),
        },
{
    let mut decoder = open_gzip(payload);
    let mut out: Vec<u8> = Vec::new();
    loop
        invariant
            gunzipped(payload@) == out@ + gzip_pending(decoder),
            gzip_sound(decoder) == gunzips(payload@),
            out.len() <= MAX_DECOMPRESSED_BYTES,
        decreases gzip_pending(decoder).len(),
    {
        match read_gzip(&mut decoder) {
            None => {
                return Err(DecodeError::Undecodable);
            },
            Some(mut piece) => {
                if piece.len() == 0 {
                    assert(out@ =~= gunzipped(payload@));
                    return Ok(out);
                }
                if out.len() + piece.len() > MAX_DECOMPRESSED_BYTES {
                    return Err(DecodeError::TooLarge);
                }
                let ghost before = out@;
                let ghost delivered = piece@;
                out.append(&mut piece);
                assert(out@ + gzip_pending(decoder) =~= before + (delivered + gzip_pending(
                    decoder,
                )));
            },
        }
    }
}

/// Whether a byte is in the strict Base64 alphabet.
pub open spec fn base64_byte(b: u8) -> bool {
    ||| 48 <= b <= 57
    ||| 65 <= b <= 90
    ||| 97 <= b <= 122
    ||| b == 43
    ||| b == 47
    ||| b == 61
}

/// Whether a payload has the shape of strict Base64.
pub open spec fn base64_shaped(payload: Seq<u8>) -> bool {
    &&& payload.len() > 0
    &&& payload.len() % 4 == 0
    &&& forall|i: int| 0 <= i < payload.len() ==> base64_byte(#[trigger] payload[i])
}

/// Decides [`base64_shaped`].
pub fn looks_like_base64(payload: &[u8]) -> (r: bool)
    ensures
        r == base64_shaped(payload@),
{
    if payload.len() == 0 || payload.len() % 4 != 0 {
        return false;
    }
    let mut i: usize = 0;
    while i < payload.len()
        invariant
            i <= payload.len(),
            forall|j: int| 0 <= j < i ==> base64_byte(#[trigger] payload@[j]),
        decreases payload.len() - i,
    {
        let b: u8 = payload[i];
        if !((48 <= b && b <= 57) || (65 <= b && b <= 90) || (97 <= b && b <= 122) || b == 43 || b
            == 47 || b == 61) {
            assert(!base64_byte(payload@[i as int]));
            return false;
        }
        i += 1;
    }
    true
}

/// The value of a hexadecimal digit, or -1.
pub open spec fn hex_value(b: u8) -> int {
    if 48 <= b <= 57 {
        b - 48
    } else if 97 <= b <= 102 {
        b - 87
    } else if 65 <= b <= 70 {
        b - 55
    } else {
        -1
    }
}

fn hex_digit(b: u8) -> (r: Option<u8>)
    ensures
        match r {
            Some(v) => v == hex_value(b) && v < 16,
            None => hex_value(b) < 0,
        },
{
    if 48 <= b && b <= 57 {
        Some(b - 48)
    } else if 97 <= b && b <= 102 {
        Some(b - 87)
    } else if 65 <= b && b <= 70 {
        Some(b - 55)
    } else {
        None
    }
}

/// Whether a percent escape starts here: a percent sign with at least two bytes behind it.
pub open spec fn escape_at(bytes: Seq<u8>) -> bool {
    bytes.len() > 2 && bytes[0] == 37
}

/// The bytes with each percent escape replaced by the byte that it names; nothing if one names none.
pub open spec fn unescaped(bytes: Seq<u8>) -> Option<Seq<u8>>
    decreases bytes.len(),
{
    if bytes.len() == 0 {
        Some(Seq::empty())
    } else if escape_at(bytes) {
        let high = hex_value(bytes[1]);
        let low = hex_value(bytes[2]);
        match unescaped(bytes.skip(3)) {
            Some(rest) if high >= 0 && low >= 0 => Some(seq![(16 * high + low) as u8] + rest),
            _ => None,
        }
    } else {
        match unescaped(bytes.skip(1)) {
            Some(rest) => Some(seq![bytes[0]] + rest),
            None => None,
        }
    }
}

/// A text with every occurrence of one character replaced by another.
pub open spec fn replaced(s: Seq<char>, from: char, to: char) -> Seq<char> {
    s.map_values(
        |c: char|
            if c == from {
                to
            } else {
                c
            },
    )
}

fn replace_char(s: &str, from: char, to: char) -> (r: String)
    ensures
        r@ == replaced(s@, from, to),
{
    let chars = chars_of(s);
    let mut out = String::new();
    let mut i: usize = 0;
    while i < chars.len()
        invariant
            i <= chars.len(),
            chars@ == s@,
            out@ == replaced(s@, from, to).take(i as int),
        decreases chars.len() - i,
    {
        if chars[i] == from {
            out.push(to);
        } else {
            out.push(chars[i]);
        }
        i += 1;
        assert(replaced(s@, from, to).take(i as int) =~= replaced(s@, from, to).take(i - 1).push(
            replaced(s@, from, to)[i - 1],
        ));
    }
    assert(replaced(s@, from, to).take(chars.len() as int) =~= replaced(s@, from, to));
    out
}

/// The text that a url-encoded value stands for.
pub open spec fn url_decoded(value: Seq<char>) -> Option<Seq<char>> {
    match unescaped(encode_utf8(replaced(value, '+', ' '))) {
        Some(bytes) if valid_utf8(bytes) => Some(decode_utf8(bytes)),
        _ => None,
    }
}

/// Decodes a url-encoded value.
pub fn urlencoding_decode(value: &str) -> (r: Result<String, DecodeError>)
    ensures
        match url_decoded(value@) {
            Some(text) => r matches Ok(s) && s@ == text,
            None => r == Err::<String, _>(DecodeError::Undecodable),
        },
{
    let with_spaces = replace_char(value, '+', ' ');
    let bytes = with_spaces.as_str().as_bytes();
    let ghost all = bytes@;
    let mut out: Vec<u8> = Vec::new();
    let mut i: usize = 0;
    assert(all.skip(0) =~= all);
    assert(unescaped(all) matches Some(rest) ==> rest =~= out@ + rest);
    while i < bytes.len()
        invariant
            i <= bytes.len(),
            bytes@ == all,
            all == encode_utf8(replaced(value@, '+', ' ')),
            unescaped(all) == (match unescaped(all.skip(i as int)) {
                Some(rest) => Some(out@ + rest),
                None => None,
            }),
        decreases bytes.len() - i,
    {
        let ghost here = all.skip(i as int);
        let ghost before = out@;
        if bytes[i] == 37 && bytes.len() - i > 2 {
            assert(escape_at(here));
            assert(here.skip(3) =~= all.skip(i + 3));
            match (hex_digit(bytes[i + 1]), hex_digit(bytes[i + 2])) {
                (Some(high), Some(low)) => {
                    out.push(high * 16 + low);
                    i += 3;
                    proof {
                        if let Some(rest) = unescaped(all.skip(i as int)) {
                            assert(out@ + rest =~= before + (seq![out@.last()] + rest));
                        }
                    }
                },
                _ => {
                    return Err(DecodeError::Undecodable);
                },
            }
        } else {
            assert(!escape_at(here));
            assert(here.skip(1) =~= all.skip(i + 1));
            out.push(bytes[i]);
            i += 1;
            proof {
                if let Some(rest) = unescaped(all.skip(i as int)) {
                    assert(out@ + rest =~= before + (seq![out@.last()] + rest));
                }
            }
        }
    }
    assert(all.skip(i as int) =~= Seq::<u8>::empty());
    assert(out@ + Seq::<u8>::empty() =~= out@);
    let ghost bytes_out = out@;
    match utf8_text(out) {
        Some(text) => {
            proof {
                encode_utf8_decode_utf8(text@);
            }
            Ok(text)
        },
        None => Err(DecodeError::Undecodable),
    }
}

/// The pieces between the separators, in order.
pub open spec fn split(s: Seq<char>, separator: char) -> Seq<Seq<char>>
    decreases s.len(),
{
    if s.len() == 0 {
        seq![Seq::empty()]
    } else {
        let before = split(s.drop_last(), separator);
        if s.last() == separator {
            before.push(Seq::empty())
        } else {
            before.drop_last().push(before.last().push(s.last()))
        }
    }
}

/// The pieces between the separators.
pub fn split_text(s: &str, separator: char) -> (r: Vec<String>)
    ensures
        views(r@) == split(s@, separator),
{
    let chars = chars_of(s);
    let mut out: Vec<String> = Vec::new();
    let mut current = String::new();
    let mut i: usize = 0;
    assert(chars@.take(0) =~= Seq::<char>::empty());
    assert(current@ =~= Seq::<char>::empty());
    assert(views(out@).push(current@) =~= split(chars@.take(0), separator));
    while i < chars.len()
        invariant
            i <= chars.len(),
            chars@ == s@,
            views(out@).push(current@) == split(chars@.take(i as int), separator),
        decreases chars.len() - i,
    {
        let ghost before = views(out@);
        let ghost word = current@;
        assert(chars@.take(i + 1).drop_last() =~= chars@.take(i as int));
        assert(before.push(word).drop_last() =~= before);
        if chars[i] == separator {
            append(&mut out, current);
            current = String::new();
            assert(current@ =~= Seq::<char>::empty());
        } else {
            current.push(chars[i]);
        }
        i += 1;
    }
    assert(chars@.take(chars.len() as int) =~= s@);
    append(&mut out, current);
    out
}

/// Where a character first occurs, or the length if it does not.
pub open spec fn first_at(s: Seq<char>, c: char) -> int
    decreases s.len(),
{
    if s.len() == 0 || s[0] == c {
        0
    } else {
        1 + first_at(s.drop_first(), c)
    }
}

/// A field of a form: the text before the first equals sign, and the text behind it.
pub open spec fn field_of(pair: Seq<char>) -> (Seq<char>, Seq<char>) {
    let at = first_at(pair, '=');
    if at < pair.len() {
        (pair.take(at), pair.skip(at + 1))
    } else {
        (pair, Seq::empty())
    }
}

/// The `data` and `compression` fields read so far.
pub struct FormModel {
    pub data: Option<Seq<char>>,
    pub hint: Option<Seq<char>>,
}

/// Reads one field; a `data` field that does not decode ends the reading.
pub open spec fn form_step(form: FormModel, pair: Seq<char>) -> Option<FormModel> {
    let (key, value) = field_of(pair);
    if key == "data"@ {
        match url_decoded(value) {
            Some(text) => Some(FormModel { data: Some(text), hint: form.hint }),
            None => None,
        }
    } else if key == "compression"@ {
        Some(FormModel { data: form.data, hint: Some(value) })
    } else {
        Some(form)
    }
}

/// Reads the fields in order; the last of each name counts.
pub open spec fn form_fields(pairs: Seq<Seq<char>>) -> Option<FormModel>
    decreases pairs.len(),
{
    if pairs.len() == 0 {
        Some(FormModel { data: None, hint: None })
    } else {
        match form_fields(pairs.drop_last()) {
            Some(form) => form_step(form, pairs.last()),
            None => None,
        }
    }
}

/// The data with spaces turned back into plus signs, where that gives the shape of Base64.
pub open spec fn plus_restored(data: Seq<char>) -> Seq<char> {
    if data.contains(' ') && base64_shaped(encode_utf8(replaced(data, ' ', '+'))) {
        replaced(data, ' ', '+')
    } else {
        data
    }
}

/// The payload and the hint of a form, if it has a `data` field that decodes.
pub open spec fn form_parsed(body: Seq<u8>) -> Option<(Seq<char>, Option<Seq<char>>)> {
    if !valid_utf8(body) {
        None
    } else {
        match form_fields(split(decode_utf8(body), '&')) {
            Some(form) => match form.data {
                Some(data) => Some((plus_restored(data), form.hint)),
                None => None,
            },
            None => None,
        }
    }
}

pub proof fn lemma_first_at(s: Seq<char>, c: char, k: int)
    requires
        0 <= k <= s.len(),
        forall|j: int| 0 <= j < k ==> s[j] != c,
        k < s.len() ==> s[k] == c,
    ensures
        first_at(s, c) == k,
    decreases s.len(),
{
    if k > 0 {
        assert(s[0] != c);
        assert forall|j: int| 0 <= j < k - 1 implies s.drop_first()[j] != c by {
            assert(s[j + 1] != c);
        }
        lemma_first_at(s.drop_first(), c, k - 1);
    }
}

fn split_field(pair: &Vec<char>) -> (r: (String, String))
    ensures
        r.0@ == field_of(pair@).0,
        r.1@ == field_of(pair@).1,
{
    let mut at: usize = 0;
    while at < pair.len() && pair[at] != '='
        invariant
            at <= pair.len(),
            forall|j: int| 0 <= j < at ==> pair@[j] != '=',
        decreases pair.len() - at,
    {
        at += 1;
    }
    proof {
        lemma_first_at(pair@, '=', at as int);
    }
    if at < pair.len() {
        assert(pair@.subrange(0, at as int) =~= pair@.take(at as int));
        assert(pair@.subrange(at + 1, pair@.len() as int) =~= pair@.skip(at + 1));
        (string_of(pair, 0, at), string_of(pair, at + 1, pair.len()))
    } else {
        assert(pair@.subrange(0, at as int) =~= pair@);
        (string_of(pair, 0, at), String::new())
    }
}

/// The view of an optional string.
pub open spec fn option_text(s: Option<String>) -> Option<Seq<char>> {
    match s {
        Some(t) => Some(t@),
        None => None,
    }
}

/// A form as it is read.
struct Form {
    data: Option<String>,
    hint: Option<String>,
}

impl Form {
    spec fn model(self) -> FormModel {
        FormModel { data: option_text(self.data), hint: option_text(self.hint) }
    }

    fn read(self, pair: &Vec<char>) -> (r: Option<Form>)
        ensures
            match r {
                Some(form) => form_step(self.model(), pair@) == Some(form.model()),
                None => form_step(self.model(), pair@) is None,
            },
    {
        let (key, value) = split_field(pair);
        if same(key.as_str(), "data") {
            match urlencoding_decode(value.as_str()) {
                Ok(text) => Some(Form { data: Some(text), hint: self.hint }),
                Err(_) => None,
            }
        } else if same(key.as_str(), "compression") {
            Some(Form { data: self.data, hint: Some(value) })
        } else {
            Some(self)
        }
    }
}

/// Parses `data=<payload>&compression=<hint>`.
pub fn parse_form(body: &[u8]) -> (r: Result<(Vec<u8>, Option<String>), DecodeError>)
    ensures
        match form_parsed(body@) {
            Some(form) => r matches Ok(found) && found.0@ == encode_utf8(form.0) && option_text(
                found.1,
            ) == form.1,
            None => r == Err::<(Vec<u8>, Option<String>), _>(DecodeError::Undecodable),
        },
{
    let text = match utf8_text(copy_bytes(body)) {
        Some(text) => text,
        None => {
            return Err(DecodeError::Undecodable);
        },
    };
    proof {
        encode_utf8_decode_utf8(text@);
    }
    let chars = chars_of(text.as_str());
    let ghost pieces = split(text@, '&');
    let mut current: Vec<char> = Vec::new();
    let mut form = Form { data: None, hint: None };
    let mut i: usize = 0;
    assert(chars@.take(0) =~= Seq::<char>::empty());
    assert(split(chars@.take(0), '&').drop_last() =~= Seq::<Seq<char>>::empty());
    let mut failed = false;
    while i < chars.len()
        invariant
            i <= chars.len(),
            chars@ == text@,
            split(chars@.take(i as int), '&').len() > 0,
            split(chars@.take(i as int), '&').last() == current@,
            failed <==> form_fields(split(chars@.take(i as int), '&').drop_last()) is None,
            !failed ==> form_fields(split(chars@.take(i as int), '&').drop_last()) == Some(
                form.model(),
            ),
        decreases chars.len() - i,
    {
        let ghost before = split(chars@.take(i as int), '&');
        assert(chars@.take(i + 1).drop_last() =~= chars@.take(i as int));
        if chars[i] == '&' {
            assert(before.push(Seq::empty()).drop_last() =~= before);
            if !failed {
                match form.read(&current) {
                    Some(next) => {
                        form = next;
                    },
                    None => {
                        failed = true;
                        form = Form { data: None, hint: None };
                    },
                }
            }
            current = Vec::new();
        } else {
            assert(before.drop_last().push(before.last().push(chars@[i as int])).drop_last()
                =~= before.drop_last());
            current.push(chars[i]);
        }
        i += 1;
    }
    assert(chars@.take(chars.len() as int) =~= text@);
    if failed {
        return Err(DecodeError::Undecodable);
    }
    let form = match form.read(&current) {
        Some(form) => form,
        None => {
            return Err(DecodeError::Undecodable);
        },
    };
    let mut data = match form.data {
        Some(data) => data,
        None => {
            return Err(DecodeError::Undecodable);
        },
    };
    if contains_char(data.as_str(), ' ') {
        let restored = replace_char(data.as_str(), ' ', '+');
        if looks_like_base64(restored.as_str().as_bytes()) {
            data = restored;
        }
    }
    Ok((copy_bytes(data.as_str().as_bytes()), form.hint))
}

/// An owned copy of a byte slice.
pub fn copy_bytes(bytes: &[u8]) -> (r: Vec<u8>)
    ensures
        r@ == bytes@,
{
    let mut out: Vec<u8> = Vec::new();
    out.extend_from_slice(bytes);
    assert(out@ =~= bytes@);
    out
}

/// Whether a hint asks for the LZ-string route.
pub open spec fn lz_hint(hint: Option<Seq<char>>) -> bool {
    hint == Some("lz64"@) || hint == Some("lz-string"@)
}

/// The bytes and the hint that a request hands on, with a form's `data` field taken out.
pub open spec fn request_payload(
    body: Seq<u8>,
    form_encoded: bool,
    hint: Option<Seq<char>>,
) -> (Seq<u8>, Option<Seq<char>>) {
    if form_encoded {
        match form_parsed(body) {
            Some((data, form_hint)) => (
                encode_utf8(data),
                if form_hint is Some {
                    form_hint
                } else {
                    hint
                },
            ),
            None => (body, hint),
        }
    } else {
        (body, hint)
    }
}

/// The payload behind one Base64 wrapper, if it has one.
pub open spec fn unwrapped(payload: Seq<u8>) -> Seq<u8> {
    match base64_decoded(payload) {
        Some(bytes) if base64_shaped(payload) => bytes,
        _ => payload,
    }
}

/// Bytes as text.
pub open spec fn text_result(bytes: Seq<u8>) -> Result<Seq<char>, DecodeError> {
    if valid_utf8(bytes) {
        Ok(decode_utf8(bytes))
    } else {
        Err(DecodeError::Undecodable)
    }
}

/// Whether a payload begins with the gzip magic bytes.
pub open spec fn gzip_magic(payload: Seq<u8>) -> bool {
    payload.len() >= 2 && payload[0] == 0x1f && payload[1] == 0x8b
}

/// The LZ-string route for a payload that is text.
pub open spec fn lz_route(payload: Seq<u8>) -> Result<Seq<char>, DecodeError> {
    if valid_utf8(payload) {
        lz_decoded(decode_utf8(payload), MAX_DECOMPRESSED_BYTES as nat)
    } else {
        Err(DecodeError::Undecodable)
    }
}

/// The text of a payload, given what is behind its Base64 wrapper and what decompressing that
/// gives: gzip by content, LZ-string by hint, else plain.
pub open spec fn routed(
    payload: Seq<u8>,
    inner: Seq<u8>,
    hint: Option<Seq<char>>,
    inflated: Result<Seq<u8>, DecodeError>,
) -> Result<Seq<char>, DecodeError> {
    if gzip_magic(inner) {
        match inflated {
            Ok(bytes) => text_result(bytes),
            Err(e) => Err(e),
        }
    } else if lz_hint(hint) && lz_route(payload) != Err::<Seq<char>, _>(
        DecodeError::Undecodable,
    ) {
        lz_route(payload)
    } else if lz_hint(hint) && lz_route(inner) != Err::<Seq<char>, _>(DecodeError::Undecodable) {
        lz_route(inner)
    } else {
        text_result(inner)
    }
}

/// The text of a payload.
pub open spec fn payload_text(payload: Seq<u8>, hint: Option<Seq<char>>) -> Result<
    Seq<char>,
    DecodeError,
> {
    let inner = unwrapped(payload);
    routed(payload, inner, hint, gunzip_result(inner))
}

/// The text of a capture request's body.
pub open spec fn decoded(body: Seq<u8>, form_encoded: bool, hint: Option<Seq<char>>) -> Result<
    Seq<char>,
    DecodeError,
> {
    let request = request_payload(body, form_encoded, hint);
    payload_text(request.0, request.1)
}

fn is_lz_hint(hint: &Option<String>) -> (r: bool)
    ensures
        r == lz_hint(option_text(*hint)),
{
    match hint {
        Some(text) => same(text.as_str(), "lz64") || same(text.as_str(), "lz-string"),
        None => false,
    }
}

fn lz_text(payload: &Vec<u8>) -> (r: Result<String, DecodeError>)
    ensures
        match lz_route(payload@) {
            Ok(text) => r matches Ok(s) && s@ == text,
            Err(e) => r == Err::<String, _>(e),
        },
{
    match utf8_text(copy_bytes(payload)) {
        Some(text) => {
            proof {
                encode_utf8_decode_utf8(text@);
            }
            decompress_lz64_bounded(text.as_str(), MAX_DECOMPRESSED_BYTES)
        },
        None => Err(DecodeError::Undecodable),
    }
}

fn plain_text(bytes: Vec<u8>) -> (r: Result<String, DecodeError>)
    ensures
        match text_result(bytes@) {
            Ok(text) => r matches Ok(s) && s@ == text,
            Err(e) => r == Err::<String, _>(e),
        },
{
    match utf8_text(bytes) {
        Some(text) => {
            proof {
                encode_utf8_decode_utf8(text@);
            }
            Ok(text)
        },
        None => Err(DecodeError::Undecodable),
    }
}

/// Decides [`gzip_magic`].
pub fn has_gzip_magic(payload: &[u8]) -> (r: bool)
    ensures
        r == gzip_magic(payload@),
{
    payload.len() >= 2 && payload[0] == 0x1f && payload[1] == 0x8b
}

/// The view of what decompressing gave.
pub open spec fn inflated_view(r: Result<Vec<u8>, DecodeError>) -> Result<Seq<u8>, DecodeError> {
    match r {
        Ok(v) => Ok(v@),
        Err(e) => Err(e),
    }
}

/// Chooses the route of a payload once its Base64 wrapper has been tried (`inner`) and, where that
/// shows gzip, decompressing has been tried too (`inflated`).
pub fn route(
    payload: &Vec<u8>,
    inner: Vec<u8>,
    hint: &Option<String>,
    inflated: Result<Vec<u8>, DecodeError>,
) -> (r: Result<String, DecodeError>)
    ensures
        match routed(payload@, inner@, option_text(*hint), inflated_view(inflated)) {
            Ok(text) => r matches Ok(s) && s@ == text,
            Err(e) => r == Err::<String, _>(e),
        },
{
    if has_gzip_magic(&inner) {
        return match inflated {
            Ok(bytes) => plain_text(bytes),
            Err(e) => Err(e),
        };
    }
    if is_lz_hint(hint) {
        match lz_text(payload) {
            Ok(text) => {
                return Ok(text);
            },
            Err(DecodeError::TooLarge) => {
                return Err(DecodeError::TooLarge);
            },
            Err(DecodeError::Undecodable) => {},
        }
        if !bytes_equal(&inner, payload) {
            match lz_text(&inner) {
                Ok(text) => {
                    return Ok(text);
                },
                Err(DecodeError::TooLarge) => {
                    return Err(DecodeError::TooLarge);
                },
                Err(DecodeError::Undecodable) => {},
            }
        }
    }
    plain_text(inner)
}

/// Decodes a capture request's body to text. The hint is trusted for the LZ-string route only.
pub fn decode(body: &[u8], form_encoded: bool, compression_hint: Option<&str>) -> (r: Result<
    String,
    DecodeError,
>)
    ensures
        match decoded(
            body@,
            form_encoded,
            match compression_hint {
                Some(h) => Some(h@),
                None => None,
            },
        ) {
            Ok(text) => r matches Ok(s) && s@ == text,
            Err(e) => r == Err::<String, _>(e),
        },
{
    let mut hint: Option<String> = match compression_hint {
        Some(h) => Some(h.to_owned()),
        None => None,
    };
    let mut payload: Vec<u8> = copy_bytes(body);
    if form_encoded {
        match parse_form(body) {
            Ok((data, form_hint)) => {
                if form_hint.is_some() {
                    hint = form_hint;
                }
                payload = data;
            },
            Err(_) => {},
        }
    }
    let mut inner: Vec<u8> = copy_bytes(&payload);
    if looks_like_base64(&payload) {
        match base64_decode(&payload) {
            Some(bytes) => {
                inner = bytes;
            },
            None => {},
        }
    }
    let inflated = if has_gzip_magic(&inner) {
        gunzip_bounded(&inner)
    } else {
        Err(DecodeError::Undecodable)
    };
    route(&payload, inner, &hint, inflated)
}

// ── Laws ──────────────────────────────────────────────────────────────────────

/// Content beats the hint: what is gzip is decompressed as gzip, whatever the client claims.
pub proof fn law_content_beats_the_hint(
    body: Seq<u8>,
    claimed: Option<Seq<char>>,
    other: Option<Seq<char>>,
)
    requires
        gzip_magic(unwrapped(body)),
    ensures
        decoded(body, false, claimed) == decoded(body, false, other),
{
}

/// What a gzip payload decompresses to never passes the ceiling.
pub proof fn law_decompression_is_bounded(payload: Seq<u8>, hint: Option<Seq<char>>)
    requires
        gzip_magic(unwrapped(payload)),
    ensures
        payload_text(payload, hint) matches Ok(text) ==> encode_utf8(text).len()
            <= MAX_DECOMPRESSED_BYTES,
{
    let inner = unwrapped(payload);
    if let Ok(bytes) = gunzip_result(inner) {
        if valid_utf8(bytes) {
            decode_utf8_encode_utf8(bytes);
        }
    }
}

} // verus!
