//! Laws of what MP3 files say of themselves.
use vstd::prelude::*;

use crate::mp3::announces_tag;
use crate::mp3::audio_offset;
use crate::mp3::begins_frame;
use crate::mp3::described;
use crate::mp3::first_frame;
use crate::mp3::frame_size;
use crate::mp3::has_id;
use crate::mp3::tag_size;
use crate::mp3::with_frame;
use crate::mp3::with_frames;
use crate::mp3::Mp3Metadata;
use crate::mp3::Mp3Model;

verus! {

/// What is found in a file is seen as it is: field by field.
pub proof fn law_metadata_is_what_it_says(x: Mp3Metadata)
    ensures
        x@.title == x.title@,
        x@.artist == x.artist@,
        x@.album == x.album@,
        x@.genre == x.genre@,
        x@.year == x.year@,
        x@.channels == x.channels@,
        x@.sample_rate == x.sample_rate,
        x@.bitrate == x.bitrate,
        x@.audio_bytes == x.audio_bytes,
        x@.cover_art == x.cover_art@,
{
}

/// Whether four bytes are the header of an audio frame, by their bits: eleven that are set,
/// then a version that is not reserved, a layer that is not reserved, a rate that is neither
/// free nor forbidden, and sampling that is not reserved.
pub open spec fn is_audio_header(a: u8, b: u8, c: u8) -> bool {
    &&& a == 0xff
    &&& b & 0xe0 == 0xe0
    &&& (b >> 3) & 3 != 1
    &&& (b >> 1) & 3 != 0
    &&& c >> 4 != 0
    &&& c >> 4 != 15
    &&& (c >> 2) & 3 != 3
}

/// The bits of a header are those that are looked at.
proof fn lemma_bits(b: u8, c: u8)
    ensures
        b & 0xe0 == 0xe0 <==> b >= 0xe0,
        (b >> 3) & 3 == (b / 8) % 4,
        (b >> 1) & 3 == (b / 2) % 4,
        c >> 4 == c / 16,
        (c >> 2) & 3 == (c / 4) % 4,
{
    assert(b & 0xe0 == 0xe0 <==> b >= 0xe0) by (bit_vector);
    assert((b >> 3) & 3 == (b / 8) % 4) by (bit_vector);
    assert((b >> 1) & 3 == (b / 2) % 4) by (bit_vector);
    assert(c >> 4 == c / 16) by (bit_vector);
    assert((c >> 2) & 3 == (c / 4) % 4) by (bit_vector);
}

/// The first audio frame is at the first place at which three bytes are those of a header, with
/// a fourth behind them.
pub proof fn law_first_header_is_found(data: Seq<u8>, i: int)
    ensures
        first_frame(data, 0) == Some(i) <==> 0 <= i && i + 3 < data.len() && is_audio_header(
            data[i],
            data[i + 1],
            data[i + 2],
        ) && forall|j: int|
            0 <= j < i ==> !is_audio_header(#[trigger] data[j], data[j + 1], data[j + 2]),
        first_frame(data, 0) is None <==> forall|j: int|
            0 <= j && j + 3 < data.len() ==> !is_audio_header(
                #[trigger] data[j],
                data[j + 1],
                data[j + 2],
            ),
{
    lemma_first_header(data, 0);
    assert forall|j: int| 0 <= j && j + 3 < data.len() implies is_audio_header(
        #[trigger] data[j],
        data[j + 1],
        data[j + 2],
    ) == begins_frame(data[j], data[j + 1], data[j + 2]) by {
        lemma_bits(data[j + 1], data[j + 2]);
    }
    if 0 <= i && i + 3 < data.len() && is_audio_header(data[i], data[i + 1], data[i + 2])
        && forall|j: int|
        0 <= j < i ==> !is_audio_header(#[trigger] data[j], data[j + 1], data[j + 2]) {
        match first_frame(data, 0) {
            Some(k) => {
                if k < i {
                    assert(is_audio_header(data[k], data[k + 1], data[k + 2]));
                } else if i < k {
                    assert(!begins_frame(data[i], data[i + 1], data[i + 2]));
                }
            },
            None => {
                assert(!begins_frame(data[i], data[i + 1], data[i + 2]));
            },
        }
    }
    if let Some(k) = first_frame(data, 0) {
        assert(is_audio_header(data[k], data[k + 1], data[k + 2]));
    }
}

/// What a search for the first audio frame gives.
proof fn lemma_first_header(data: Seq<u8>, from: int)
    requires
        0 <= from,
    ensures
        match first_frame(data, from) {
            Some(i) => from <= i && i + 3 < data.len() && begins_frame(
                data[i],
                data[i + 1],
                data[i + 2],
            ) && forall|j: int|
                from <= j < i ==> !begins_frame(#[trigger] data[j], data[j + 1], data[j + 2]),
            None => forall|j: int|
                from <= j && j + 3 < data.len() ==> !begins_frame(
                    #[trigger] data[j],
                    data[j + 1],
                    data[j + 2],
                ),
        },
    decreases data.len() - from,
{
    if from + 3 < data.len() && !begins_frame(data[from], data[from + 1], data[from + 2]) {
        lemma_first_header(data, from + 1);
    }
}

/// The rates of layer III of MPEG 1: from 32 on in steps of 8 to 64, of 16 to 128, of 32 to
/// 256, and 320.
pub open spec fn mpeg1_layer3_rate(n: int) -> int {
    if n <= 5 {
        24 + 8 * n
    } else if n <= 9 {
        16 * n - 16
    } else if n <= 13 {
        32 * n - 160
    } else {
        320
    }
}

/// The rates of layer III of the other versions: from 8 on in steps of 8 to 64, and of 16 to
/// 160.
pub open spec fn layer3_rate(n: int) -> int {
    if n <= 8 {
        8 * n
    } else {
        16 * n - 64
    }
}

/// The rates of the other layers: 32, then from 48 on in steps of 8 to 64, of 16 to 128, of 32
/// to 256, and of 64 to 384.
pub open spec fn other_layer_rate(n: int) -> int {
    if n == 1 {
        32
    } else if n <= 4 {
        32 + 8 * n
    } else if n <= 8 {
        16 * n
    } else if n <= 12 {
        32 * n - 128
    } else {
        64 * n - 512
    }
}

/// What a file says of its audio is what the header of its first audio frame says: it is mono
/// where both bits of the channel mode are set, and stereo in each of the other modes; its rate
/// is that of its version and layer, and its sampling that of its version, which is halved in
/// MPEG 2 and quartered in MPEG 2.5. What follows the tag, if one is announced, is audio.
pub proof fn law_audio_is_what_its_first_header_says(
    h: Seq<u8>,
    tag: Option<Seq<u8>>,
    data: Seq<u8>,
    file_size: u64,
    i: int,
)
    requires
        0 <= i,
        i + 3 < data.len(),
        is_audio_header(data[i], data[i + 1], data[i + 2]),
        forall|j: int|
            0 <= j < i ==> !is_audio_header(#[trigger] data[j], data[j + 1], data[j + 2]),
    ensures
        ({
            let m = described(Some(h), tag, Some(data), file_size);
            let (b, c, d) = (data[i + 1], data[i + 2], data[i + 3]);
            let (version, layer, n) = ((b >> 3) & 3, (b >> 1) & 3, (c >> 4) as int);
            &&& d >= 192 ==> m.channels == "单声道"@
            &&& d < 192 ==> m.channels == "立体声"@
            &&& m.bitrate == if layer == 1 && version == 3 {
                mpeg1_layer3_rate(n)
            } else if layer == 1 {
                layer3_rate(n)
            } else {
                other_layer_rate(n)
            }
            &&& m.sample_rate * (if version == 3 {
                1int
            } else if version == 2 {
                2
            } else {
                4
            }) == if (c >> 2) & 3 == 0 {
                44100int
            } else if (c >> 2) & 3 == 1 {
                48000
            } else {
                32000
            }
            &&& m.audio_bytes == if file_size >= audio_offset(h) {
                file_size - audio_offset(h)
            } else {
                0
            }
        }),
{
    let (b, c, d) = (data[i + 1], data[i + 2], data[i + 3]);
    law_first_header_is_found(data, i);
    lemma_bits(b, c);
    let n = (c / 16) as int;
    assert(1 <= n <= 14);
    assert(crate::mp3::rates_of_mpeg1_layer3()[n] == mpeg1_layer3_rate(n));
    assert(crate::mp3::rates_of_layer3()[n] == layer3_rate(n));
    assert(crate::mp3::rates_of_other_layers()[n] == other_layer_rate(n));
    assert((b / 8) % 4 == 0 || (b / 8) % 4 == 2 || (b / 8) % 4 == 3);
}

/// Where no audio frame is found, nothing is said of the audio.
pub proof fn law_no_header_says_nothing(
    h: Seq<u8>,
    tag: Option<Seq<u8>>,
    data: Seq<u8>,
    file_size: u64,
)
    requires
        forall|j: int|
            0 <= j && j + 3 < data.len() ==> !is_audio_header(
                #[trigger] data[j],
                data[j + 1],
                data[j + 2],
            ),
    ensures
        described(Some(h), tag, Some(data), file_size) == described(Some(h), tag, None, file_size),
        described(Some(h), tag, None, file_size).bitrate == 0,
        described(Some(h), tag, None, file_size).sample_rate == 0,
        described(Some(h), tag, None, file_size).channels.len() == 0,
        described(Some(h), tag, None, file_size).audio_bytes == 0,
{
    law_first_header_is_found(data, 0);
    if let Some(t) = tag {
        lemma_frames_say_nothing_of_audio(crate::mp3::unknown(), t, 0, h[3]);
    }
}

/// A tag says nothing of the audio.
proof fn lemma_frames_say_nothing_of_audio(m: Mp3Model, tag: Seq<u8>, pos: int, version: u8)
    ensures
        with_frames(m, tag, pos, version).bitrate == m.bitrate,
        with_frames(m, tag, pos, version).sample_rate == m.sample_rate,
        with_frames(m, tag, pos, version).channels == m.channels,
        with_frames(m, tag, pos, version).audio_bytes == m.audio_bytes,
    decreases tag.len() - pos,
{
    if pos < 0 || pos + 10 > tag.len() || has_id(tag, pos, 0, 0, 0, 0) {
    } else {
        let size = frame_size(tag, pos, version);
        if size <= 0 || pos + 10 + size > tag.len() {
        } else {
            lemma_frames_say_nothing_of_audio(
                with_frame(m, tag, pos, tag.subrange(pos + 10, pos + 10 + size)),
                tag,
                pos + 10 + size,
                version,
            );
        }
    }
}

/// A tag is announced by `ID3`; its size stands in four bytes of which the upper bit does not
/// count, and the audio begins behind it. Where none is announced, the audio begins at once.
pub proof fn law_audio_begins_behind_the_tag(h: Seq<u8>)
    ensures
        announces_tag(h) <==> h.len() == 10 && h[0] == 73 && h[1] == 68 && h[2] == 51,
        !announces_tag(h) ==> audio_offset(h) == 0,
        announces_tag(h) ==> audio_offset(h) == 10 + (h[6] & 0x7f) * 0x20_0000 + (h[7] & 0x7f)
            * 0x4000 + (h[8] & 0x7f) * 0x80 + (h[9] & 0x7f),
        announces_tag(h) ==> audio_offset(h) == 10 + tag_size(h),
{
    if announces_tag(h) {
        let (a, b, c, d) = (h[6], h[7], h[8], h[9]);
        assert(a & 0x7f == a % 128) by (bit_vector);
        assert(b & 0x7f == b % 128) by (bit_vector);
        assert(c & 0x7f == c % 128) by (bit_vector);
        assert(d & 0x7f == d % 128) by (bit_vector);
        let four = h.subrange(6, 10);
        assert(four[0] == a && four[1] == b && four[2] == c && four[3] == d);
    }
}

} // verus!
