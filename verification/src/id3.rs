//! The tag at the head of a music file: texts and a cover, in frames.
use vstd::prelude::*;

use crate::base64::base64_encode;
use crate::base64::encoded;
use crate::text::chars_of;
use crate::text::trim;
use crate::text::trim_char;
use crate::text::trimmed;
use crate::text::without_char;

verus! {

/// The text that bytes in UTF-8 stand for, with what is no UTF-8 replaced.
pub uninterp spec fn utf8_text(bytes: Seq<u8>) -> Seq<char>;

/// `String::from_utf8_lossy` reads UTF-8 and replaces what is not. Claimed of it: the
/// text depends on the bytes alone, and it is what valid UTF-8 stands for.
#[verifier::external_body]
fn read_utf8(bytes: &[u8]) -> (r: String)
    ensures
        r@ == utf8_text(bytes@),
        vstd::utf8::valid_utf8(bytes@) ==> r@ == vstd::utf8::decode_utf8(bytes@),
{
    String::from_utf8_lossy(bytes).into_owned()
}

/// What bytes are read as: as what they stand for where they are UTF-8, and else with what
/// is no UTF-8 replaced.
pub open spec fn read_as(bytes: Seq<u8>) -> Seq<char> {
    if vstd::utf8::valid_utf8(bytes) {
        vstd::utf8::decode_utf8(bytes)
    } else {
        utf8_text(bytes)
    }
}

/// Whether `u` is the first half of a pair.
pub open spec fn is_high_surrogate(u: u16) -> bool {
    0xd800 <= u < 0xdc00
}

/// Whether `u` is the second half of a pair.
pub open spec fn is_low_surrogate(u: u16) -> bool {
    0xdc00 <= u < 0xe000
}

/// The text that units of UTF-16 stand for: two halves that follow each other stand for
/// one character, and a half alone is replaced.
pub open spec fn utf16_text(units: Seq<u16>) -> Seq<char>
    decreases units.len(),
{
    if units.len() == 0 {
        Seq::empty()
    } else if is_high_surrogate(units[0]) && units.len() > 1 && is_low_surrogate(units[1]) {
        seq![(0x10000 + (units[0] - 0xd800) * 0x400 + (units[1] - 0xdc00)) as char] + utf16_text(
            units.skip(2),
        )
    } else if is_high_surrogate(units[0]) || is_low_surrogate(units[0]) {
        seq!['\u{fffd}'] + utf16_text(units.drop_first())
    } else {
        seq![units[0] as char] + utf16_text(units.drop_first())
    }
}

/// `String::from_utf16_lossy` reads UTF-16 and replaces each half of a pair that stands
/// alone.
pub assume_specification[ String::from_utf16_lossy ](v: &[u16]) -> (r: String)
    ensures
        r@ == utf16_text(v@),
;

/// The number in four bytes of which seven bits each count.
pub open spec fn synchsafe_value(bytes: Seq<u8>) -> int {
    if bytes.len() < 4 {
        0
    } else {
        (bytes[0] % 128) * 2097152 + (bytes[1] % 128) * 16384 + (bytes[2] % 128) * 128 + (bytes[3]
            % 128)
    }
}

/// The number in four bytes of which seven bits each count.
pub fn synchsafe(bytes: &[u8]) -> (r: usize)
    ensures
        r == synchsafe_value(bytes@),
        r < 0x1000_0000,
{
    if bytes.len() < 4 {
        return 0;
    }
    ((bytes[0] % 128) as usize) * 2097152 + ((bytes[1] % 128) as usize) * 16384 + ((bytes[2]
        % 128) as usize) * 128 + ((bytes[3] % 128) as usize)
}

/// The number in four bytes, the highest first.
pub open spec fn big_endian(bytes: Seq<u8>) -> int {
    bytes[0] * 16777216 + bytes[1] * 65536 + bytes[2] * 256 + bytes[3]
}

/// The unit of UTF-16 in two bytes.
pub open spec fn unit(a: u8, b: u8, little_endian: bool) -> u16 {
    if little_endian {
        (b * 256 + a) as u16
    } else {
        (a * 256 + b) as u16
    }
}

/// The units of UTF-16 in bytes, up to the first that is zero.
pub open spec fn units(bytes: Seq<u8>, little_endian: bool) -> Seq<u16>
    decreases bytes.len(),
{
    if bytes.len() < 2 || unit(bytes[0], bytes[1], little_endian) == 0 {
        Seq::empty()
    } else {
        seq![unit(bytes[0], bytes[1], little_endian)] + units(bytes.skip(2), little_endian)
    }
}

/// Whether bytes begin with the mark that says which byte of a unit comes first.
pub open spec fn has_mark(value: Seq<u8>) -> bool {
    value.len() >= 2 && ((value[0] == 0xfe && value[1] == 0xff) || (value[0] == 0xff && value[1]
        == 0xfe))
}

/// Whether the mark says that the lower byte of a unit comes first.
pub open spec fn is_little_endian(value: Seq<u8>) -> bool {
    value.len() >= 2 && value[0] == 0xff && value[1] == 0xfe
}

/// The text of a frame: its first byte says how it is written.
pub open spec fn frame_text(bytes: Seq<u8>) -> Seq<char> {
    let value = bytes.skip(1);
    if bytes.len() < 2 {
        Seq::empty()
    } else if bytes[0] == 0 || bytes[0] == 3 {
        trimmed(without_char(read_as(value), '\u{0}'))
    } else if bytes[0] == 1 {
        let body = if has_mark(value) {
            value.skip(2)
        } else {
            value
        };
        trimmed(utf16_text(units(body, is_little_endian(value))))
    } else if bytes[0] == 2 {
        trimmed(utf16_text(units(value, false)))
    } else {
        Seq::empty()
    }
}

/// The units of UTF-16 in `bytes[from..]`, up to the first that is zero.
fn read_units(bytes: &[u8], from: usize, little_endian: bool) -> (r: Vec<u16>)
    requires
        from <= bytes@.len(),
    ensures
        r@ == units(bytes@.skip(from as int), little_endian),
{
    let ghost all = units(bytes@.skip(from as int), little_endian);
    let mut r: Vec<u16> = Vec::new();
    let mut i: usize = from;
    proof {
        assert(r@ + all =~= all);
    }
    while bytes.len() - i >= 2
        invariant
            from <= i <= bytes@.len(),
            all == units(bytes@.skip(from as int), little_endian),
            all == r@ + units(bytes@.skip(i as int), little_endian),
        decreases bytes@.len() - i,
    {
        let ghost rest = bytes@.skip(i as int);
        let a: u16 = bytes[i] as u16;
        let b: u16 = bytes[i + 1] as u16;
        let u: u16 = if little_endian {
            b * 256 + a
        } else {
            a * 256 + b
        };
        proof {
            assert(u == unit(rest[0], rest[1], little_endian));
        }
        if u == 0 {
            proof {
                assert(all =~= r@);
            }
            return r;
        }
        let ghost before = r@;
        r.push(u);
        proof {
            assert(rest.skip(2) =~= bytes@.skip(i + 2));
            assert(before + (seq![u] + units(rest.skip(2), little_endian)) =~= r@ + units(
                rest.skip(2),
                little_endian,
            ));
        }
        i = i + 2;
    }
    proof {
        assert(all =~= r@);
    }
    r
}

/// The text of a frame: its first byte says how it is written.
pub fn decode_id3_text(bytes: &[u8]) -> (r: String)
    ensures
        r@ == frame_text(bytes@),
        bytes@.len() >= 2 && (bytes@[0] == 0 || bytes@[0] == 3) && vstd::utf8::valid_utf8(
            bytes@.skip(1),
        ) ==> r@ == trimmed(
            without_char(vstd::utf8::decode_utf8(bytes@.skip(1)), '\u{0}'),
        ),
{
    if bytes.len() < 2 {
        return String::new();
    }
    let encoding: u8 = bytes[0];
    if encoding == 0 || encoding == 3 {
        let value = vstd::slice::slice_subrange(bytes, 1, bytes.len());
        proof {
            assert(value@ =~= bytes@.skip(1));
        }
        let text = read_utf8(value);
        let bare = trim_char(text.as_str(), '\u{0}');
        return trim(bare.as_str());
    }
    if encoding == 1 || encoding == 2 {
        let ghost value = bytes@.skip(1);
        let little_endian: bool = encoding == 1 && bytes.len() >= 3 && bytes[1] == 0xff && bytes[2]
            == 0xfe;
        let marked: bool = encoding == 1 && bytes.len() >= 3 && ((bytes[1] == 0xfe && bytes[2]
            == 0xff) || (bytes[1] == 0xff && bytes[2] == 0xfe));
        let from: usize = if marked {
            3
        } else {
            1
        };
        proof {
            if bytes@.len() >= 3 {
                assert(value.skip(2) =~= bytes@.skip(3));
            }
        }
        let read = read_units(bytes, from, little_endian);
        let text = String::from_utf16_lossy(read.as_slice());
        return trim(text.as_str());
    }
    String::new()
}

/// The position of the first byte from `from` on that is zero.
pub open spec fn first_zero(s: Seq<u8>, from: int) -> Option<int>
    decreases s.len() - from,
{
    if from < 0 || from >= s.len() {
        None
    } else if s[from] == 0 {
        Some(from)
    } else {
        first_zero(s, from + 1)
    }
}

/// The position of the first pair of bytes, counted from `from`, that are both zero.
pub open spec fn first_zero_pair(s: Seq<u8>, from: int) -> Option<int>
    decreases s.len() - from,
{
    if from < 0 || from + 1 >= s.len() {
        None
    } else if s[from] == 0 && s[from + 1] == 0 {
        Some(from)
    } else {
        first_zero_pair(s, from + 2)
    }
}

/// An ASCII capital becomes its small letter; every other byte stays.
pub open spec fn folded_byte(b: u8) -> u8 {
    if 65 <= b <= 90 {
        (b + 32) as u8
    } else {
        b
    }
}

/// Bytes with their ASCII capitals made small.
pub open spec fn folded_bytes(s: Seq<u8>) -> Seq<u8> {
    s.map_values(|b: u8| folded_byte(b))
}

/// The characters of ASCII as bytes.
pub open spec fn ascii(s: Seq<char>) -> Seq<u8> {
    s.map_values(|c: char| c as u8)
}

/// The kinds of picture that are taken for covers.
pub open spec fn picture_kind(mime: Seq<u8>) -> Option<Seq<char>> {
    let m = folded_bytes(mime);
    if m == ascii("image/jpeg"@) || m == ascii("image/jpg"@) {
        Some("image/jpeg"@)
    } else if m == ascii("image/png"@) {
        Some("image/png"@)
    } else {
        None
    }
}

/// The largest picture that is taken for a cover.
pub const LARGEST_COVER: usize = 2097152;

/// Where the picture in a frame begins: behind its description, which begins at `from`
/// and is written as `encoding` says.
pub open spec fn picture_start(frame: Seq<u8>, encoding: u8, from: int) -> Option<int> {
    if encoding == 1 || encoding == 2 {
        match first_zero_pair(frame, from) {
            Some(i) => Some(i + 2),
            None => None,
        }
    } else {
        match first_zero(frame, from) {
            Some(i) => Some(i + 1),
            None => None,
        }
    }
}

/// The address that holds a picture.
pub open spec fn address(kind: Seq<char>, picture: Seq<u8>) -> Seq<char> {
    "data:"@ + kind + ";base64,"@ + encoded(picture)
}

/// The cover in a frame, as an address that holds it: the kind of picture, its
/// description and the picture stand one behind the other.
pub open spec fn cover(frame: Seq<u8>) -> Option<Seq<char>> {
    if frame.len() < 4 {
        None
    } else {
        match first_zero(frame, 1) {
            None => None,
            Some(end) => match picture_kind(frame.subrange(1, end)) {
                None => None,
                Some(kind) => if end + 1 >= frame.len() {
                    None
                } else {
                    match picture_start(frame, frame[0], end + 1) {
                        None => None,
                        Some(start) => {
                            let picture = frame.skip(start);
                            if picture.len() == 0 || picture.len() > LARGEST_COVER {
                                None
                            } else {
                                Some(address(kind, picture))
                            }
                        },
                    }
                },
            },
        }
    }
}

proof fn lemma_first_zero(s: Seq<u8>, from: int)
    requires
        0 <= from,
    ensures
        first_zero(s, from) matches Some(i) ==> from <= i < s.len() && s[i] == 0,
    decreases s.len() - from,
{
    if from < s.len() && s[from] != 0 {
        lemma_first_zero(s, from + 1);
    }
}

proof fn lemma_first_zero_pair(s: Seq<u8>, from: int)
    requires
        0 <= from,
    ensures
        first_zero_pair(s, from) matches Some(i) ==> from <= i && i + 1 < s.len(),
    decreases s.len() - from,
{
    if from + 1 < s.len() && !(s[from] == 0 && s[from + 1] == 0) {
        lemma_first_zero_pair(s, from + 2);
    }
}

/// The position of the first byte from `from` on that is zero.
fn find_zero(s: &[u8], from: usize) -> (r: Option<usize>)
    ensures
        match r {
            Some(i) => from <= i < s@.len() && first_zero(s@, from as int) == Some(i as int),
            None => first_zero(s@, from as int) is None,
        },
{
    let mut i: usize = from;
    while i < s.len()
        invariant
            from <= i,
            first_zero(s@, from as int) == first_zero(s@, i as int),
        decreases s@.len() - i,
    {
        if s[i] == 0 {
            return Some(i);
        }
        i = i + 1;
    }
    None
}

/// The position of the first pair of bytes, counted from `from`, that are both zero.
fn find_zero_pair(s: &[u8], from: usize) -> (r: Option<usize>)
    requires
        from <= s@.len(),
    ensures
        match r {
            Some(i) => from <= i && i + 1 < s@.len() && first_zero_pair(s@, from as int) == Some(
                i as int,
            ),
            None => first_zero_pair(s@, from as int) is None,
        },
{
    let mut i: usize = from;
    while s.len() - i > 1
        invariant
            from <= i <= s@.len(),
            first_zero_pair(s@, from as int) == first_zero_pair(s@, i as int),
        decreases s@.len() - i,
    {
        if s[i] == 0 && s[i + 1] == 0 {
            return Some(i);
        }
        i = i + 2;
    }
    None
}

/// Whether `bytes[from..to]` are the characters of `text`, ASCII case aside; `text` holds
/// nothing but ASCII in small letters.
fn spells(bytes: &[u8], from: usize, to: usize, text: &str) -> (b: bool)
    requires
        from <= to <= bytes@.len(),
        forall|i: int| 0 <= i < text@.len() ==> (#[trigger] text@[i] as u32) < 128,
    ensures
        b == (folded_bytes(bytes@.subrange(from as int, to as int)) == ascii(text@)),
{
    let ghost part = bytes@.subrange(from as int, to as int);
    let chars = chars_of(text);
    if to - from != chars.len() {
        proof {
            assert(folded_bytes(part).len() != ascii(text@).len());
        }
        return false;
    }
    let mut i: usize = 0;
    while i < chars.len()
        invariant
            i <= chars@.len(),
            chars@ == text@,
            from <= to <= bytes@.len(),
            to - from == chars@.len(),
            part == bytes@.subrange(from as int, to as int),
            forall|j: int| 0 <= j < text@.len() ==> (#[trigger] text@[j] as u32) < 128,
            forall|j: int| 0 <= j < i ==> folded_bytes(part)[j] == ascii(text@)[j],
        decreases chars@.len() - i,
    {
        let b: u8 = bytes[from + i];
        let f: u8 = if 65 <= b && b <= 90 {
            b + 32
        } else {
            b
        };
        proof {
            assert(f == folded_bytes(part)[i as int]);
            assert((text@[i as int] as u32) < 128);
        }
        if f != chars[i] as u8 {
            proof {
                assert(folded_bytes(part)[i as int] != ascii(text@)[i as int]);
            }
            return false;
        }
        i = i + 1;
    }
    proof {
        assert(folded_bytes(part) =~= ascii(text@));
    }
    true
}

/// The kind of picture that `bytes[from..to]` names.
fn kind_of_picture(bytes: &[u8], from: usize, to: usize) -> (r: Option<&'static str>)
    requires
        from <= to <= bytes@.len(),
    ensures
        match picture_kind(bytes@.subrange(from as int, to as int)) {
            Some(k) => r matches Some(s) && s@ == k,
            None => r is None,
        },
{
    proof {
        reveal_strlit("image/jpeg");
        reveal_strlit("image/jpg");
        reveal_strlit("image/png");
    }
    if spells(bytes, from, to, "image/jpeg") || spells(bytes, from, to, "image/jpg") {
        Some("image/jpeg")
    } else if spells(bytes, from, to, "image/png") {
        Some("image/png")
    } else {
        None
    }
}

/// The cover in a frame, as an address that holds it.
pub fn parse_apic(frame: &[u8]) -> (r: Option<String>)
    ensures
        match cover(frame@) {
            Some(c) => r matches Some(s) && s@ == c,
            None => r is None,
        },
{
    if frame.len() < 4 {
        return None;
    }
    let end: usize = match find_zero(frame, 1) {
        Some(i) => i,
        None => {
            return None;
        },
    };
    let kind = match kind_of_picture(frame, 1, end) {
        Some(k) => k,
        None => {
            return None;
        },
    };
    if end + 1 >= frame.len() {
        return None;
    }
    let start: usize = if frame[0] == 1 || frame[0] == 2 {
        match find_zero_pair(frame, end + 1) {
            Some(i) => i + 2,
            None => {
                return None;
            },
        }
    } else {
        match find_zero(frame, end + 1) {
            Some(i) => i + 1,
            None => {
                return None;
            },
        }
    };
    let picture = vstd::slice::slice_subrange(frame, start, frame.len());
    proof {
        assert(picture@ =~= frame@.skip(start as int));
    }
    if picture.len() == 0 || picture.len() > LARGEST_COVER {
        return None;
    }
    let mut r = "data:".to_string();
    r.append(kind);
    r.append(";base64,");
    r.append(base64_encode(picture).as_str());
    Some(r)
}

/// A cover is an address that holds the picture of the frame, and the picture is read
/// back from it.
pub proof fn law_cover_holds_the_picture(frame: Seq<u8>)
    requires
        cover(frame) is Some,
    ensures
        exists|kind: Seq<char>, start: int|
            0 < start < frame.len() && frame.len() - start <= LARGEST_COVER && cover(frame) == Some(
                #[trigger] address(kind, frame.skip(start)),
            ) && (kind == "image/jpeg"@ || kind == "image/png"@) && crate::base64::decoded(
                encoded(frame.skip(start)),
            ) == Some(frame.skip(start)),
{
    lemma_first_zero(frame, 1);
    let end = first_zero(frame, 1)->0;
    let kind = picture_kind(frame.subrange(1, end))->0;
    lemma_first_zero(frame, end + 1);
    lemma_first_zero_pair(frame, end + 1);
    let start = picture_start(frame, frame[0], end + 1)->0;
    crate::base64::law_base64_is_read_back(frame.skip(start));
    assert(cover(frame) == Some(address(kind, frame.skip(start))));
}

} // verus!
