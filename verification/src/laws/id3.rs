//! Laws of the tag at the head of a music file.
use vstd::prelude::*;

use crate::base64::encoded;
use crate::id3::address;
use crate::id3::ascii;
use crate::id3::cover;
use crate::id3::first_zero;
use crate::id3::first_zero_pair;
use crate::id3::folded_byte;
use crate::id3::folded_bytes;
use crate::id3::frame_text;
use crate::id3::is_high_surrogate;
use crate::id3::is_low_surrogate;
use crate::id3::picture_kind;
use crate::id3::unit;
use crate::id3::units;
use crate::id3::utf16_text;
use crate::mp3::described;
use crate::mp3::frame_size;
use crate::mp3::has_id;
use crate::mp3::unknown;
use crate::mp3::with_frame;
use crate::mp3::with_frames;
use crate::mp3::Mp3Model;
use crate::text::equal_to;
use crate::text::trimmed;
use crate::text::without_char;
use crate::text::without_leading;
use crate::text::without_trailing;

verus! {

/// What a tag says does not depend on where in it the frames stand.
proof fn lemma_frames_behind(m: Mp3Model, before: Seq<u8>, tag: Seq<u8>, pos: int, version: u8)
    requires
        0 <= pos,
    ensures
        with_frames(m, before + tag, before.len() + pos, version) == with_frames(
            m,
            tag,
            pos,
            version,
        ),
    decreases tag.len() - pos,
{
    let all = before + tag;
    let at = before.len() + pos;
    if pos + 10 <= tag.len() {
        assert(all[at] == tag[pos] && all[at + 1] == tag[pos + 1] && all[at + 2] == tag[pos + 2]
            && all[at + 3] == tag[pos + 3]);
        assert(all.subrange(at + 4, at + 8) =~= tag.subrange(pos + 4, pos + 8));
        let size = frame_size(tag, pos, version);
        if !has_id(tag, pos, 0, 0, 0, 0) && 0 < size && pos + 10 + size <= tag.len() {
            let body = tag.subrange(pos + 10, pos + 10 + size);
            assert(all.subrange(at + 10, at + 10 + size) =~= body);
            lemma_frames_behind(with_frame(m, tag, pos, body), before, tag, pos + 10 + size, version);
            assert(with_frame(m, all, at, body) == with_frame(m, tag, pos, body));
        }
    }
}

/// Whether four bytes at the beginning of a tag are those of ASCII characters.
pub open spec fn begins_with(tag: Seq<u8>, a: char, b: char, c: char, d: char) -> bool {
    tag[0] == a as int && tag[1] == b as int && tag[2] == c as int && tag[3] == d as int
}

/// The size of a frame as it stands in the four bytes behind its name: in version 4 of seven
/// bits each, in the others of eight.
pub open spec fn size_told(tag: Seq<u8>, version: u8) -> int {
    if version == 4 {
        (tag[4] % 128) * 0x20_0000 + (tag[5] % 128) * 0x4000 + (tag[6] % 128) * 0x80 + tag[7] % 128
    } else {
        tag[4] * 0x100_0000 + tag[5] * 0x1_0000 + tag[6] * 0x100 + tag[7]
    }
}

/// A tag is read frame by frame: a frame says what its name is for, and the rest of the tag is
/// read as if it stood alone. The title, artist, album, genre and year are what the last frame
/// of their names says, the year no more than four characters of it; the cover is the first
/// that is one. A frame of another name says nothing.
pub proof fn law_tag_is_read_frame_by_frame(m: Mp3Model, tag: Seq<u8>, version: u8)
    requires
        tag.len() >= 10,
        !(tag[0] == 0 && tag[1] == 0 && tag[2] == 0 && tag[3] == 0),
        0 < size_told(tag, version),
        10 + size_told(tag, version) <= tag.len(),
    ensures
        exists|n: Mp3Model| #[trigger]
            with_frames(n, tag.skip(10 + size_told(tag, version)), 0, version) == with_frames(
                m,
                tag,
                0,
                version,
            ) && {
                let body = tag.subrange(10, 10 + size_told(tag, version));
                let text = frame_text(body);
                let is_title = begins_with(tag, 'T', 'I', 'T', '2');
                let is_artist = begins_with(tag, 'T', 'P', 'E', '1');
                let is_album = begins_with(tag, 'T', 'A', 'L', 'B');
                let is_genre = begins_with(tag, 'T', 'C', 'O', 'N');
                let is_year = begins_with(tag, 'T', 'D', 'R', 'C') || begins_with(
                    tag,
                    'T',
                    'Y',
                    'E',
                    'R',
                );
                let is_cover = begins_with(tag, 'A', 'P', 'I', 'C');
                &&& n.title == if is_title {
                    text
                } else {
                    m.title
                }
                &&& n.artist == if is_artist {
                    text
                } else {
                    m.artist
                }
                &&& n.album == if is_album {
                    text
                } else {
                    m.album
                }
                &&& n.genre == if is_genre {
                    text
                } else {
                    m.genre
                }
                &&& n.year == if is_year {
                    text.take(
                        if text.len() < 4 {
                            text.len() as int
                        } else {
                            4
                        },
                    )
                } else {
                    m.year
                }
                &&& n.cover_art == if is_cover && m.cover_art.len() == 0 {
                    match cover(body) {
                        Some(c) => c,
                        None => Seq::empty(),
                    }
                } else {
                    m.cover_art
                }
            },
{
    let size = size_told(tag, version);
    let four = tag.subrange(4, 8);
    assert(four[0] == tag[4] && four[1] == tag[5] && four[2] == tag[6] && four[3] == tag[7]);
    assert(frame_size(tag, 0, version) == size);
    let body = tag.subrange(10, 10 + size);
    let n = with_frame(m, tag, 0, body);
    let head = tag.take(10 + size);
    let rest = tag.skip(10 + size);
    lemma_frames_behind(n, head, rest, 0, version);
    assert(head + rest =~= tag);
    let text = frame_text(body);
    if text.len() <= 4 {
        assert(text.take(text.len() as int) =~= text);
    }
    assert(with_frames(n, rest, 0, version) == with_frames(m, tag, 0, version));
}

/// A tag says no more where no frame begins, or one would be empty or reach beyond it.
pub proof fn law_tag_ends_where_no_frame_begins(m: Mp3Model, tag: Seq<u8>, version: u8)
    requires
        tag.len() < 10 || (tag[0] == 0 && tag[1] == 0 && tag[2] == 0 && tag[3] == 0) || size_told(
            tag,
            version,
        ) == 0 || 10 + size_told(tag, version) > tag.len(),
    ensures
        with_frames(m, tag, 0, version) == m,
{
    if tag.len() >= 10 {
        let four = tag.subrange(4, 8);
        assert(four[0] == tag[4] && four[1] == tag[5] && four[2] == tag[6] && four[3] == tag[7]);
    }
}

/// What a file says in words is what its tag says, if one is announced and was read, by the
/// version that the header tells; else it says nothing.
pub proof fn law_words_are_those_of_the_tag(
    h: Seq<u8>,
    tag: Option<Seq<u8>>,
    audio: Option<Seq<u8>>,
    file_size: u64,
)
    ensures
        ({
            let m = described(Some(h), tag, audio, file_size);
            let told = if h.len() == 10 && h[0] == 73 && h[1] == 68 && h[2] == 51 && tag is Some {
                with_frames(unknown(), tag->0, 0, h[3])
            } else {
                unknown()
            };
            &&& m.title == told.title
            &&& m.artist == told.artist
            &&& m.album == told.album
            &&& m.genre == told.genre
            &&& m.year == told.year
            &&& m.cover_art == told.cover_art
        }),
        unknown().title.len() == 0 && unknown().artist.len() == 0 && unknown().album.len() == 0
            && unknown().genre.len() == 0 && unknown().year.len() == 0
            && unknown().cover_art.len() == 0 && unknown().channels.len() == 0,
        unknown().bitrate == 0 && unknown().sample_rate == 0 && unknown().audio_bytes == 0,
        described(None, tag, audio, file_size) == unknown(),
{
}

/// A text in UTF-8, marked 0 or 3, is read without NUL characters at its ends and trimmed.
pub proof fn law_utf8_is_read(s: Seq<char>, encoding: u8)
    requires
        encoding == 0 || encoding == 3,
        s.len() > 0,
        s[0] != '\u{0}',
        s.last() != '\u{0}',
    ensures
        frame_text(seq![encoding] + vstd::utf8::encode_utf8(s)) == trimmed(s),
{
    let bytes = vstd::utf8::encode_utf8(s);
    let all = seq![encoding] + bytes;
    vstd::utf8::encode_utf8_valid_utf8(s);
    vstd::utf8::encode_utf8_decode_utf8(s);
    assert(all.skip(1) =~= bytes);
    assert(bytes.len() > 0) by {
        if bytes.len() == 0 {
            assert(vstd::utf8::decode_utf8(bytes).len() == 0);
        }
    }
    assert(without_char(s, '\u{0}') == s);
}

/// The units of UTF-16 of a text: one for a character of sixteen bits, else two halves.
pub open spec fn units_of(s: Seq<char>) -> Seq<u16>
    decreases s.len(),
{
    if s.len() == 0 {
        Seq::empty()
    } else if (s[0] as int) < 0x1_0000 {
        seq![(s[0] as int) as u16] + units_of(s.drop_first())
    } else {
        seq![
            (0xd800 + (s[0] as int - 0x1_0000) / 0x400) as u16,
            (0xdc00 + (s[0] as int - 0x1_0000) % 0x400) as u16,
        ] + units_of(s.drop_first())
    }
}

/// Units of UTF-16 as bytes, in the order given.
pub open spec fn bytes_of(units: Seq<u16>, little_endian: bool) -> Seq<u8>
    decreases units.len(),
{
    if units.len() == 0 {
        Seq::empty()
    } else {
        let (high, low) = ((units[0] / 256) as u8, (units[0] % 256) as u8);
        (if little_endian {
            seq![low, high]
        } else {
            seq![high, low]
        }) + bytes_of(units.drop_first(), little_endian)
    }
}

/// Units that are not zero are read back from their bytes; a zero ends them.
pub proof fn law_units_are_read_back(us: Seq<u16>, little_endian: bool, rest: Seq<u8>)
    requires
        forall|i: int| 0 <= i < us.len() ==> #[trigger] us[i] != 0,
    ensures
        units(bytes_of(us, little_endian), little_endian) == us,
        units(bytes_of(us, little_endian) + seq![0u8, 0u8] + rest, little_endian) == us,
    decreases us.len(),
{
    let bytes = bytes_of(us, little_endian);
    let more = bytes + seq![0u8, 0u8] + rest;
    if us.len() == 0 {
        assert(bytes =~= Seq::empty());
        assert(more[0] == 0 && more[1] == 0);
        assert(units(more, little_endian) =~= us);
        assert(units(bytes, little_endian) =~= us);
    } else {
        let tail = us.drop_first();
        assert forall|i: int| 0 <= i < tail.len() implies #[trigger] tail[i] != 0 by {
            assert(tail[i] == us[i + 1]);
        }
        law_units_are_read_back(tail, little_endian, rest);
        let u = us[0];
        assert(u != 0);
        let (high, low) = ((u / 256) as u8, (u % 256) as u8);
        assert(bytes.skip(2) =~= bytes_of(tail, little_endian));
        assert(more.skip(2) =~= bytes_of(tail, little_endian) + seq![0u8, 0u8] + rest);
        assert(unit(bytes[0], bytes[1], little_endian) == u);
        assert(more[0] == bytes[0] && more[1] == bytes[1]);
        assert(seq![u] + tail =~= us);
    }
}

/// A text is read back from its units of UTF-16.
pub proof fn law_utf16_is_read_back(s: Seq<char>)
    ensures
        utf16_text(units_of(s)) == s,
    decreases s.len(),
{
    if s.len() > 0 {
        let rest = s.drop_first();
        law_utf16_is_read_back(rest);
        let us = units_of(s);
        lemma_character(s[0]);
        if (s[0] as int) < 0x1_0000 {
            assert(us.drop_first() =~= units_of(rest));
        } else {
            assert(us.skip(2) =~= units_of(rest));
        }
        assert(seq![s[0]] + rest =~= s);
        assert(utf16_text(us) =~= s);
    } else {
        assert(utf16_text(units_of(s)) =~= s);
    }
}

/// A character is found again in its units.
proof fn lemma_character(c: char)
    ensures
        (c as int) < 0x1_0000 ==> ((c as int) as u16) as int == c as int && !is_high_surrogate(
            (c as int) as u16,
        ) && !is_low_surrogate((c as int) as u16) && ((c as int) as u16) as char == c,
        (c as int) >= 0x1_0000 ==> {
            let a = (0xd800 + (c as int - 0x1_0000) / 0x400) as u16;
            let b = (0xdc00 + (c as int - 0x1_0000) % 0x400) as u16;
            is_high_surrogate(a) && is_low_surrogate(b) && (0x10000 + (a - 0xd800) * 0x400 + (b
                - 0xdc00)) as char == c
        },
{
    let n = c as int;
    if n >= 0x1_0000 {
        let q = (n - 0x1_0000) / 0x400;
        let r = (n - 0x1_0000) % 0x400;
        assert(n - 0x1_0000 == q * 0x400 + r && 0 <= r < 0x400);
        assert(n <= 0x10_ffff);
        assert(0 <= q < 0x400);
    }
}

/// The units of a text without NUL characters are not zero.
proof fn lemma_units_are_not_zero(s: Seq<char>)
    requires
        !s.contains('\u{0}'),
    ensures
        forall|i: int| 0 <= i < units_of(s).len() ==> #[trigger] units_of(s)[i] != 0,
        s.len() > 0 ==> units_of(s).len() > 0,
    decreases s.len(),
{
    if s.len() > 0 {
        let rest = s.drop_first();
        assert(s.contains(s[0]));
        assert forall|i: int| 0 <= i < rest.len() implies rest[i] != '\u{0}' by {
            assert(s.contains(s[i + 1]));
        }
        lemma_units_are_not_zero(rest);
        lemma_character(s[0]);
        let us = units_of(s);
        assert forall|i: int| 0 <= i < us.len() implies #[trigger] us[i] != 0 by {
            let k: int = if (s[0] as int) < 0x1_0000 {
                1
            } else {
                2
            };
            if i >= k {
                assert(us[i] == units_of(rest)[i - k]);
            }
        }
    }
}

/// A text in UTF-16 is read, trimmed: marked 1, in the order of bytes that its mark tells, and
/// marked 2, with the higher byte first.
pub proof fn law_utf16_is_read(s: Seq<char>)
    requires
        s.len() > 0,
        !s.contains('\u{0}'),
    ensures
        frame_text(seq![1u8, 0xffu8, 0xfeu8] + bytes_of(units_of(s), true)) == trimmed(s),
        frame_text(seq![1u8, 0xfeu8, 0xffu8] + bytes_of(units_of(s), false)) == trimmed(s),
        frame_text(seq![2u8] + bytes_of(units_of(s), false)) == trimmed(s),
{
    let us = units_of(s);
    lemma_units_are_not_zero(s);
    law_utf16_is_read_back(s);
    law_units_are_read_back(us, true, Seq::empty());
    law_units_are_read_back(us, false, Seq::empty());
    let little = bytes_of(us, true);
    let big = bytes_of(us, false);
    let a = seq![1u8, 0xffu8, 0xfeu8] + little;
    let b = seq![1u8, 0xfeu8, 0xffu8] + big;
    let c = seq![2u8] + big;
    assert(a.skip(1)[0] == 0xff && a.skip(1)[1] == 0xfe);
    assert(b.skip(1)[0] == 0xfe && b.skip(1)[1] == 0xff);
    assert(a.skip(1).skip(2) =~= little);
    assert(b.skip(1).skip(2) =~= big);
    assert(c.skip(1) =~= big);
    assert(big.len() >= 2);
}

/// Bytes that are marked neither as UTF-8 nor as UTF-16, or are too few, are no text.
pub proof fn law_other_marks_are_no_text(bytes: Seq<u8>)
    requires
        bytes.len() < 2 || bytes[0] > 3,
    ensures
        frame_text(bytes).len() == 0,
{
}

/// Characters that are dropped at the ends are all that are, up to one that is not.
pub proof fn law_fillers_are_dropped_at_the_ends(s: Seq<char>, c: char, m: nat, n: nat)
    requires
        s.len() == 0 || (s[0] != c && s.last() != c),
    ensures
        without_char(Seq::new(m, |i: int| c) + s + Seq::new(n, |i: int| c), c) == s,
    decreases m + n,
{
    let head = Seq::new(m, |i: int| c);
    let tail = Seq::new(n, |i: int| c);
    let all = head + s + tail;
    if m > 0 {
        law_fillers_are_dropped_at_the_ends(s, c, (m - 1) as nat, n);
        let fewer = Seq::new((m - 1) as nat, |i: int| c);
        assert(all.drop_first() =~= fewer + s + tail);
        assert(all[0] == c);
    } else if s.len() == 0 {
        if n > 0 {
            law_fillers_are_dropped_at_the_ends(s, c, 0, (n - 1) as nat);
            let fewer = Seq::new((n - 1) as nat, |i: int| c);
            assert(all.drop_first() =~= Seq::new(0, |i: int| c) + s + fewer);
            assert(all[0] == c);
        } else {
            assert(all =~= s);
        }
    } else {
        assert(all[0] == s[0]);
        assert(without_leading(all, equal_to(c)) == all);
        lemma_trailing_fillers(s, c, n);
        assert(all =~= s + tail);
    }
}

/// Trailing characters are dropped up to one that stays.
proof fn lemma_trailing_fillers(s: Seq<char>, c: char, n: nat)
    requires
        s.len() > 0,
        s.last() != c,
    ensures
        without_trailing(s + Seq::new(n, |i: int| c), equal_to(c)) == s,
    decreases n,
{
    let all = s + Seq::new(n, |i: int| c);
    if n > 0 {
        lemma_trailing_fillers(s, c, (n - 1) as nat);
        assert(all.drop_last() =~= s + Seq::new((n - 1) as nat, |i: int| c));
        assert(all.last() == c);
    } else {
        assert(all =~= s);
    }
}

/// The first zero from a place on is behind what holds none.
proof fn lemma_first_zero_behind(s: Seq<u8>, from: int, to: int)
    requires
        0 <= from <= to < s.len(),
        s[to] == 0,
        forall|i: int| from <= i < to ==> #[trigger] s[i] != 0,
    ensures
        first_zero(s, from) == Some(to),
    decreases to - from,
{
    if from < to {
        lemma_first_zero_behind(s, from + 1, to);
    }
}

/// The first pair of zeros from a place on is behind pairs of which none is two zeros.
proof fn lemma_first_zero_pair_behind(s: Seq<u8>, from: int, pairs: int)
    requires
        0 <= from,
        0 <= pairs,
        from + 2 * pairs + 1 < s.len(),
        s[from + 2 * pairs] == 0 && s[from + 2 * pairs + 1] == 0,
        forall|i: int|
            0 <= i < pairs ==> !(#[trigger] s[from + 2 * i] == 0 && s[from + 2 * i + 1] == 0),
    ensures
        first_zero_pair(s, from) == Some(from + 2 * pairs),
    decreases pairs,
{
    if pairs > 0 {
        assert(!(s[from + 2 * 0] == 0 && s[from + 2 * 0 + 1] == 0));
        assert forall|i: int| 0 <= i < pairs - 1 implies !(#[trigger] s[from + 2 + 2 * i] == 0
            && s[from + 2 + 2 * i + 1] == 0) by {
            assert(!(s[from + 2 * (i + 1)] == 0 && s[from + 2 * (i + 1) + 1] == 0));
        }
        lemma_first_zero_pair_behind(s, from + 2, pairs - 1);
    }
}

/// Whether bytes are the characters of a text of small ASCII letters, in any case.
pub open spec fn spells(bytes: Seq<u8>, text: Seq<char>) -> bool {
    bytes.len() == text.len() && forall|i: int|
        0 <= i < bytes.len() ==> (#[trigger] bytes[i] == text[i] as int || (65 <= bytes[i] <= 90
            && bytes[i] + 32 == text[i] as int))
}

/// Bytes in small letters are a text that they spell.
proof fn lemma_spelled(bytes: Seq<u8>, text: Seq<char>)
    requires
        forall|i: int| 0 <= i < text.len() ==> 33 <= (#[trigger] text[i]) as int <= 122,
        forall|i: int|
            0 <= i < text.len() ==> !(65 <= (#[trigger] text[i]) as int && text[i] as int <= 90),
    ensures
        folded_bytes(bytes) == ascii(text) <==> spells(bytes, text),
{
    let (a, b) = (folded_bytes(bytes), ascii(text));
    assert(a.len() == bytes.len() && b.len() == text.len());
    assert forall|i: int| 0 <= i < a.len() implies a[i] == folded_byte(bytes[i]) by {}
    assert forall|i: int| 0 <= i < b.len() implies #[trigger] b[i] == text[i] as int by {
        assert(33 <= text[i] as int <= 122);
    }
    if a == b {
        assert forall|i: int| 0 <= i < bytes.len() implies (#[trigger] bytes[i] == text[i] as int
            || (65 <= bytes[i] <= 90 && bytes[i] + 32 == text[i] as int)) by {
            assert(a[i] == b[i]);
        }
    }
    if spells(bytes, text) {
        assert forall|i: int| 0 <= i < a.len() implies a[i] == b[i] by {
            assert(bytes[i] == text[i] as int || bytes[i] != text[i] as int);
            assert(33 <= text[i] as int <= 122);
        }
        assert(a =~= b);
    }
}

/// What kind a picture is of: a JPEG or a PNG, by the words for them in any case, and else
/// none that is taken for a cover.
pub proof fn law_kinds_of_pictures(mime: Seq<u8>)
    ensures
        picture_kind(mime) == if spells(mime, "image/jpeg"@) || spells(mime, "image/jpg"@) {
            Some("image/jpeg"@)
        } else if spells(mime, "image/png"@) {
            Some("image/png"@)
        } else {
            None
        },
{
    reveal_strlit("image/jpeg");
    reveal_strlit("image/jpg");
    reveal_strlit("image/png");
    lemma_spelled(mime, "image/jpeg"@);
    lemma_spelled(mime, "image/jpg"@);
    lemma_spelled(mime, "image/png"@);
}

/// A cover is the picture that stands behind the kind of picture, and behind a description
/// that ends in a zero, or in UTF-16 in a pair of zeros: as an address that holds it, where it
/// is of a kind that is taken for a cover, is not empty and not larger than two mebibytes.
pub proof fn law_cover_is_the_picture_of_the_frame(
    encoding: u8,
    mime: Seq<u8>,
    description: Seq<u8>,
    picture: Seq<u8>,
)
    requires
        forall|i: int| 0 <= i < mime.len() ==> #[trigger] mime[i] != 0,
        encoding != 1 && encoding != 2,
        forall|i: int| 0 <= i < description.len() ==> #[trigger] description[i] != 0,
        mime.len() + description.len() + picture.len() >= 1,
    ensures
        cover(seq![encoding] + mime + seq![0u8] + description + seq![0u8] + picture) == if picture.len()
            == 0 || picture.len() > 0x20_0000 {
            None
        } else {
            match picture_kind(mime) {
                Some(kind) => Some("data:"@ + kind + ";base64,"@ + encoded(picture)),
                None => None,
            }
        },
{
    let frame = seq![encoding] + mime + seq![0u8] + description + seq![0u8] + picture;
    let end = 1 + mime.len() as int;
    let stop = end + 1 + description.len() as int;
    assert forall|i: int| 1 <= i < end implies #[trigger] frame[i] != 0 by {
        assert(frame[i] == mime[i - 1]);
    }
    assert forall|i: int| end + 1 <= i < stop implies #[trigger] frame[i] != 0 by {
        assert(frame[i] == description[i - end - 1]);
    }
    assert(frame[end] == 0 && frame[stop] == 0);
    lemma_first_zero_behind(frame, 1, end);
    lemma_first_zero_behind(frame, end + 1, stop);
    assert(frame.subrange(1, end) =~= mime);
    assert(frame.skip(stop + 1) =~= picture);
}

/// A cover whose description is in UTF-16 is the picture behind the pair of zeros that ends
/// it.
pub proof fn law_cover_behind_a_description_in_utf16(
    encoding: u8,
    mime: Seq<u8>,
    description: Seq<u8>,
    picture: Seq<u8>,
)
    requires
        forall|i: int| 0 <= i < mime.len() ==> #[trigger] mime[i] != 0,
        encoding == 1 || encoding == 2,
        description.len() % 2 == 0,
        forall|i: int|
            0 <= i < description.len() / 2 ==> !(#[trigger] description[2 * i] == 0
                && description[2 * i + 1] == 0),
    ensures
        cover(seq![encoding] + mime + seq![0u8] + description + seq![0u8, 0u8] + picture)
            == if picture.len() == 0 || picture.len() > 0x20_0000 {
            None
        } else {
            match picture_kind(mime) {
                Some(kind) => Some("data:"@ + kind + ";base64,"@ + encoded(picture)),
                None => None,
            }
        },
{
    let frame = seq![encoding] + mime + seq![0u8] + description + seq![0u8, 0u8] + picture;
    let end = 1 + mime.len() as int;
    let pairs = (description.len() / 2) as int;
    let stop = end + 1 + 2 * pairs;
    assert forall|i: int| 1 <= i < end implies #[trigger] frame[i] != 0 by {
        assert(frame[i] == mime[i - 1]);
    }
    assert(frame[end] == 0 && frame[stop] == 0 && frame[stop + 1] == 0);
    lemma_first_zero_behind(frame, 1, end);
    assert forall|i: int| 0 <= i < pairs implies !(#[trigger] frame[end + 1 + 2 * i] == 0 && frame[
    end + 1 + 2 * i + 1] == 0) by {
        assert(frame[end + 1 + 2 * i] == description[2 * i]);
        assert(frame[end + 1 + 2 * i + 1] == description[2 * i + 1]);
    }
    lemma_first_zero_pair_behind(frame, end + 1, pairs);
    assert(frame.subrange(1, end) =~= mime);
    assert(frame.skip(stop + 2) =~= picture);
}

} // verus!
