//! What an MP3 file says of itself: in the tag at its head and in its first audio frame.
use vstd::prelude::*;

use crate::id3::big_endian;
use crate::id3::cover;
use crate::id3::decode_id3_text;
use crate::id3::frame_text;
use crate::id3::parse_apic;
use crate::id3::synchsafe;
use crate::id3::synchsafe_value;
use crate::text::chars_of;
use crate::text::string_of;

verus! {

/// What an MP3 file says of itself. Its duration follows from `audio_bytes` and
/// `bitrate`.
pub struct Mp3Metadata {
    pub title: String,
    pub artist: String,
    pub album: String,
    pub genre: String,
    pub year: String,
    pub channels: String,
    pub sample_rate: u32,
    pub bitrate: u32,
    pub audio_bytes: u64,
    pub cover_art: String,
}

/// What an MP3 file says of itself, mathematically.
#[verifier::ext_equal]
pub struct Mp3Model {
    pub title: Seq<char>,
    pub artist: Seq<char>,
    pub album: Seq<char>,
    pub genre: Seq<char>,
    pub year: Seq<char>,
    pub channels: Seq<char>,
    pub sample_rate: u32,
    pub bitrate: u32,
    pub audio_bytes: u64,
    pub cover_art: Seq<char>,
}

impl View for Mp3Metadata {
    type V = Mp3Model;

    open spec fn view(&self) -> Mp3Model {
        Mp3Model {
            title: self.title@,
            artist: self.artist@,
            album: self.album@,
            genre: self.genre@,
            year: self.year@,
            channels: self.channels@,
            sample_rate: self.sample_rate,
            bitrate: self.bitrate,
            audio_bytes: self.audio_bytes,
            cover_art: self.cover_art@,
        }
    }
}

/// Nothing known of a file.
pub open spec fn unknown() -> Mp3Model {
    Mp3Model {
        title: Seq::empty(),
        artist: Seq::empty(),
        album: Seq::empty(),
        genre: Seq::empty(),
        year: Seq::empty(),
        channels: Seq::empty(),
        sample_rate: 0,
        bitrate: 0,
        audio_bytes: 0,
        cover_art: Seq::empty(),
    }
}

impl Default for Mp3Metadata {
    fn default() -> (r: Self)
        ensures
            r@ == unknown(),
    {
        let r = Mp3Metadata {
            title: String::new(),
            artist: String::new(),
            album: String::new(),
            genre: String::new(),
            year: String::new(),
            channels: String::new(),
            sample_rate: 0,
            bitrate: 0,
            audio_bytes: 0,
            cover_art: String::new(),
        };
        proof {
            assert(r@ =~= unknown());
        }
        r
    }
}

/// How many bytes at the head of a file say whether a tag follows.
pub const HEADER: usize = 10;

/// The largest tag that is read.
pub const LARGEST_TAG: usize = 16777216;

/// How much of the audio is searched for its first frame.
pub const AUDIO_WINDOW: usize = 65536;

/// Whether a tag follows a header: one begins with `ID3`.
pub open spec fn announces_tag(header: Seq<u8>) -> bool {
    header.len() == HEADER && header[0] == 0x49 && header[1] == 0x44 && header[2] == 0x33
}

/// The size of the tag that follows a header.
pub open spec fn tag_size(header: Seq<u8>) -> int {
    if announces_tag(header) {
        synchsafe_value(header.subrange(6, 10))
    } else {
        0
    }
}

/// Where the audio begins.
pub open spec fn audio_offset(header: Seq<u8>) -> int {
    if announces_tag(header) {
        10 + tag_size(header)
    } else {
        0
    }
}

/// What is to be read of a file behind its header.
pub struct ReadPlan {
    /// The size of the tag, if one follows that is not too large.
    pub tag_size: Option<usize>,
    /// Where the audio begins.
    pub audio_offset: usize,
    /// How much of the audio is read, if there is as much.
    pub audio_size: usize,
}

/// Whether a header announces a tag.
fn has_tag_mark(header: &[u8]) -> (b: bool)
    ensures
        b == announces_tag(header@),
{
    header.len() == HEADER && header[0] == 0x49 && header[1] == 0x44 && header[2] == 0x33
}

/// Decides what is to be read of a file behind its header.
pub fn plan_reading(header: &[u8]) -> (r: ReadPlan)
    ensures
        r.audio_offset == audio_offset(header@),
        r.audio_size == AUDIO_WINDOW,
        r.tag_size == if announces_tag(header@) && tag_size(header@) <= LARGEST_TAG {
            Some(tag_size(header@) as usize)
        } else {
            None::<usize>
        },
        r.audio_size == 0x1_0000,
        r.tag_size is Some <==> announces_tag(header@) && tag_size(header@) <= 0x100_0000,
{
    if !has_tag_mark(header) {
        return ReadPlan { tag_size: None, audio_offset: 0, audio_size: AUDIO_WINDOW };
    }
    let four = vstd::slice::slice_subrange(header, 6, 10);
    let size: usize = synchsafe(four);
    ReadPlan {
        tag_size: if size <= LARGEST_TAG {
            Some(size)
        } else {
            None
        },
        audio_offset: 10 + size,
        audio_size: AUDIO_WINDOW,
    }
}

/// Whether the frame at `pos` of a tag has the identifier `a b c d`.
pub open spec fn has_id(tag: Seq<u8>, pos: int, a: u8, b: u8, c: u8, d: u8) -> bool {
    tag[pos] == a && tag[pos + 1] == b && tag[pos + 2] == c && tag[pos + 3] == d
}

/// The size of the frame at `pos` of a tag.
pub open spec fn frame_size(tag: Seq<u8>, pos: int, version: u8) -> int {
    if version == 4 {
        synchsafe_value(tag.subrange(pos + 4, pos + 8))
    } else {
        big_endian(tag.subrange(pos + 4, pos + 8))
    }
}

/// Up to four characters from the front.
pub open spec fn first_four(s: Seq<char>) -> Seq<char> {
    if s.len() <= 4 {
        s
    } else {
        s.take(4)
    }
}

/// What is known once the frame at `pos` of a tag was read: a title (`TIT2`), an artist
/// (`TPE1`), an album (`TALB`), a genre (`TCON`), a year (`TDRC` or `TYER`), or a cover
/// (`APIC`) where none is known yet.
pub open spec fn with_frame(m: Mp3Model, tag: Seq<u8>, pos: int, frame: Seq<u8>) -> Mp3Model {
    let text = frame_text(frame);
    if has_id(tag, pos, 0x54, 0x49, 0x54, 0x32) {
        Mp3Model { title: text, ..m }
    } else if has_id(tag, pos, 0x54, 0x50, 0x45, 0x31) {
        Mp3Model { artist: text, ..m }
    } else if has_id(tag, pos, 0x54, 0x41, 0x4c, 0x42) {
        Mp3Model { album: text, ..m }
    } else if has_id(tag, pos, 0x54, 0x43, 0x4f, 0x4e) {
        Mp3Model { genre: text, ..m }
    } else if has_id(tag, pos, 0x54, 0x44, 0x52, 0x43) || has_id(tag, pos, 0x54, 0x59, 0x45, 0x52) {
        Mp3Model { year: first_four(text), ..m }
    } else if has_id(tag, pos, 0x41, 0x50, 0x49, 0x43) && m.cover_art.len() == 0 {
        Mp3Model {
            cover_art: match cover(frame) {
                Some(c) => c,
                None => Seq::empty(),
            },
            ..m
        }
    } else {
        m
    }
}

/// What is known once the frames of a tag from `pos` on were read. Reading ends where no
/// frame begins, or where one would be empty or reach beyond the tag.
pub open spec fn with_frames(m: Mp3Model, tag: Seq<u8>, pos: int, version: u8) -> Mp3Model
    decreases tag.len() - pos,
{
    if pos < 0 || pos + 10 > tag.len() || has_id(tag, pos, 0, 0, 0, 0) {
        m
    } else {
        let size = frame_size(tag, pos, version);
        if size <= 0 || pos + 10 + size > tag.len() {
            m
        } else {
            with_frames(
                with_frame(m, tag, pos, tag.subrange(pos + 10, pos + 10 + size)),
                tag,
                pos + 10 + size,
                version,
            )
        }
    }
}

/// Whether an audio frame begins with these three bytes.
pub open spec fn begins_frame(a: u8, b: u8, c: u8) -> bool {
    &&& a == 0xff
    &&& b >= 0xe0
    &&& (b / 8) % 4 != 1
    &&& (b / 2) % 4 != 0
    &&& c / 16 != 0
    &&& c / 16 != 15
    &&& (c / 4) % 4 != 3
}

/// The position of the first audio frame from `from` on that is there with its header.
pub open spec fn first_frame(data: Seq<u8>, from: int) -> Option<int>
    decreases data.len() - from,
{
    if from < 0 || from + 3 >= data.len() {
        None
    } else if begins_frame(data[from], data[from + 1], data[from + 2]) {
        Some(from)
    } else {
        first_frame(data, from + 1)
    }
}

/// The rates, in thousands of bits per second, of MPEG 1 layer III.
pub open spec fn rates_of_mpeg1_layer3() -> Seq<u32> {
    seq![0, 32, 40, 48, 56, 64, 80, 96, 112, 128, 160, 192, 224, 256, 320, 0]
}

/// The rates, in thousands of bits per second, of layer III of the other versions.
pub open spec fn rates_of_layer3() -> Seq<u32> {
    seq![0, 8, 16, 24, 32, 40, 48, 56, 64, 80, 96, 112, 128, 144, 160, 0]
}

/// The rates, in thousands of bits per second, of the other layers.
pub open spec fn rates_of_other_layers() -> Seq<u32> {
    seq![0, 32, 48, 56, 64, 80, 96, 112, 128, 160, 192, 224, 256, 320, 384, 0]
}

/// The rate, in thousands of bits per second, of an audio frame.
pub open spec fn bitrate_of(b: u8, c: u8) -> u32 {
    let index = (c / 16) as int;
    if (b / 2) % 4 == 1 && (b / 8) % 4 == 3 {
        rates_of_mpeg1_layer3()[index]
    } else if (b / 2) % 4 == 1 {
        rates_of_layer3()[index]
    } else {
        rates_of_other_layers()[index]
    }
}

/// How often an audio frame was sampled in a second.
pub open spec fn sample_rate_of(b: u8, c: u8) -> u32 {
    let base: u32 = if (c / 4) % 4 == 0 {
        44100
    } else if (c / 4) % 4 == 1 {
        48000
    } else {
        32000
    };
    if (b / 8) % 4 == 2 {
        base / 2
    } else if (b / 8) % 4 == 0 {
        base / 4
    } else {
        base
    }
}

/// What is said of how many channels an audio frame has.
pub open spec fn channels_of(d: u8) -> Seq<char> {
    if d / 64 == 3 {
        "单声道"@
    } else {
        "立体声"@
    }
}

/// What is known once the audio was looked at: `size` bytes of it, of which `data` is the
/// beginning.
pub open spec fn with_audio(m: Mp3Model, data: Seq<u8>, size: u64) -> Mp3Model {
    match first_frame(data, 0) {
        Some(i) => Mp3Model {
            sample_rate: sample_rate_of(data[i + 1], data[i + 2]),
            bitrate: bitrate_of(data[i + 1], data[i + 2]),
            channels: channels_of(data[i + 3]),
            audio_bytes: size,
            ..m
        },
        None => m,
    }
}

/// How much of a file of `file_size` bytes is audio.
pub open spec fn audio_size(header: Seq<u8>, file_size: u64) -> u64 {
    if file_size < audio_offset(header) {
        0
    } else {
        (file_size - audio_offset(header)) as u64
    }
}

/// What a file says of itself, by the parts of it that could be read: its header, the tag
/// behind it, and the beginning of its audio.
pub open spec fn described(
    header: Option<Seq<u8>>,
    tag: Option<Seq<u8>>,
    audio: Option<Seq<u8>>,
    file_size: u64,
) -> Mp3Model {
    match header {
        None => unknown(),
        Some(h) => {
            let m = match tag {
                Some(t) => if announces_tag(h) {
                    with_frames(unknown(), t, 0, h[3])
                } else {
                    unknown()
                },
                None => unknown(),
            };
            match audio {
                Some(a) => with_audio(m, a, audio_size(h, file_size)),
                None => m,
            }
        },
    }
}

/// Wherever a frame is found its rate is one of the table, and never zero: the duration
/// that follows from it is a number.
pub proof fn law_frame_has_a_rate(data: Seq<u8>, from: int)
    requires
        0 <= from,
    ensures
        first_frame(data, from) matches Some(i) ==> from <= i && i + 3 < data.len() && bitrate_of(
            data[i + 1],
            data[i + 2],
        ) > 0 && sample_rate_of(data[i + 1], data[i + 2]) >= 8000,
    decreases data.len() - from,
{
    if from + 3 < data.len() {
        let (b, c) = (data[from + 1], data[from + 2]);
        if begins_frame(data[from], b, c) {
            let index = (c / 16) as int;
            assert(1 <= index <= 14);
            assert(rates_of_mpeg1_layer3()[index] > 0);
            assert(rates_of_layer3()[index] > 0);
            assert(rates_of_other_layers()[index] > 0);
        } else {
            law_frame_has_a_rate(data, from + 1);
        }
    }
}

/// Whether the frame at `pos` of a tag has the identifier `a b c d`.
fn is_id(tag: &[u8], pos: usize, a: u8, b: u8, c: u8, d: u8) -> (r: bool)
    requires
        pos + 4 <= tag@.len(),
    ensures
        r == has_id(tag@, pos as int, a, b, c, d),
{
    tag[pos] == a && tag[pos + 1] == b && tag[pos + 2] == c && tag[pos + 3] == d
}

/// Up to four characters from the front.
fn four_chars(s: &str) -> (r: String)
    ensures
        r@ == first_four(s@),
{
    let chars = chars_of(s);
    if chars.len() <= 4 {
        let r = string_of(&chars, 0, chars.len());
        proof {
            assert(r@ =~= s@);
        }
        r
    } else {
        let r = string_of(&chars, 0, 4);
        proof {
            assert(r@ =~= s@.take(4));
        }
        r
    }
}

impl Mp3Metadata {
    /// Takes what the frame at `pos` of a tag says.
    fn read_frame(&mut self, tag: &[u8], pos: usize, frame: &[u8])
        requires
            pos + 4 <= tag@.len(),
        ensures
            final(self)@ == with_frame(old(self)@, tag@, pos as int, frame@),
    {
        let text = decode_id3_text(frame);
        if is_id(tag, pos, 0x54, 0x49, 0x54, 0x32) {
            self.title = text;
        } else if is_id(tag, pos, 0x54, 0x50, 0x45, 0x31) {
            self.artist = text;
        } else if is_id(tag, pos, 0x54, 0x41, 0x4c, 0x42) {
            self.album = text;
        } else if is_id(tag, pos, 0x54, 0x43, 0x4f, 0x4e) {
            self.genre = text;
        } else if is_id(tag, pos, 0x54, 0x44, 0x52, 0x43) || is_id(
            tag,
            pos,
            0x54,
            0x59,
            0x45,
            0x52,
        ) {
            self.year = four_chars(text.as_str());
        } else if is_id(tag, pos, 0x41, 0x50, 0x49, 0x43) && self.cover_art.as_str().is_empty() {
            self.cover_art = match parse_apic(frame) {
                Some(c) => c,
                None => {
                    let none = String::new();
                    proof {
                        assert(none@ =~= Seq::empty());
                    }
                    none
                },
            };
        }
    }

    /// Takes what the frames of a tag say.
    fn read_tag(&mut self, tag: &[u8], version: u8)
        ensures
            final(self)@ == with_frames(old(self)@, tag@, 0, version),
    {
        let ghost all = with_frames(self@, tag@, 0, version);
        let mut pos: usize = 0;
        while tag.len() - pos >= 10
            invariant
                pos <= tag@.len(),
                all == with_frames(old(self)@, tag@, 0, version),
                all == with_frames(self@, tag@, pos as int, version),
            decreases tag@.len() - pos,
        {
            if is_id(tag, pos, 0, 0, 0, 0) {
                return;
            }
            let four = vstd::slice::slice_subrange(tag, pos + 4, pos + 8);
            let size: usize = if version == 4 {
                synchsafe(four)
            } else {
                (four[0] as usize) * 16777216 + (four[1] as usize) * 65536 + (four[2] as usize)
                    * 256 + (four[3] as usize)
            };
            proof {
                assert(size == frame_size(tag@, pos as int, version));
            }
            if size == 0 || size > tag.len() - pos - 10 {
                return;
            }
            let frame = vstd::slice::slice_subrange(tag, pos + 10, pos + 10 + size);
            self.read_frame(tag, pos, frame);
            pos = pos + 10 + size;
        }
    }

    /// Takes what the audio says: `size` bytes of it, of which `data` is the beginning.
    fn read_audio(&mut self, data: &[u8], size: u64)
        ensures
            final(self)@ == with_audio(old(self)@, data@, size),
    {
        let mut i: usize = 0;
        while data.len() > 3 && i < data.len() - 3
            invariant
                i <= data@.len(),
                self@ == old(self)@,
                first_frame(data@, 0) == first_frame(data@, i as int),
            decreases data@.len() - i,
        {
            let b: u8 = data[i + 1];
            let c: u8 = data[i + 2];
            if data[i] == 0xff && b >= 0xe0 && (b / 8) % 4 != 1 && (b / 2) % 4 != 0 && c / 16 != 0
                && c / 16 != 15 && (c / 4) % 4 != 3 {
                self.sample_rate = frame_sample_rate(b, c);
                self.bitrate = frame_bitrate(b, c);
                self.channels = if data[i + 3] / 64 == 3 {
                    "单声道".to_string()
                } else {
                    "立体声".to_string()
                };
                self.audio_bytes = size;
                return;
            }
            i = i + 1;
        }
    }
}

/// The rate, in thousands of bits per second, of an audio frame.
fn frame_bitrate(b: u8, c: u8) -> (r: u32)
    ensures
        r == bitrate_of(b, c),
{
    let index: usize = (c / 16) as usize;
    if (b / 2) % 4 == 1 && (b / 8) % 4 == 3 {
        let rates: [u32; 16] = [
            0, 32, 40, 48, 56, 64, 80, 96, 112, 128, 160, 192, 224, 256, 320, 0,
        ];
        proof {
            assert(rates@ =~= rates_of_mpeg1_layer3());
        }
        rates[index]
    } else if (b / 2) % 4 == 1 {
        let rates: [u32; 16] = [
            0, 8, 16, 24, 32, 40, 48, 56, 64, 80, 96, 112, 128, 144, 160, 0,
        ];
        proof {
            assert(rates@ =~= rates_of_layer3());
        }
        rates[index]
    } else {
        let rates: [u32; 16] = [
            0, 32, 48, 56, 64, 80, 96, 112, 128, 160, 192, 224, 256, 320, 384, 0,
        ];
        proof {
            assert(rates@ =~= rates_of_other_layers());
        }
        rates[index]
    }
}

/// How often an audio frame was sampled in a second.
fn frame_sample_rate(b: u8, c: u8) -> (r: u32)
    ensures
        r == sample_rate_of(b, c),
{
    let base: u32 = if (c / 4) % 4 == 0 {
        44100
    } else if (c / 4) % 4 == 1 {
        48000
    } else {
        32000
    };
    if (b / 8) % 4 == 2 {
        base / 2
    } else if (b / 8) % 4 == 0 {
        base / 4
    } else {
        base
    }
}

/// What a file says of itself, by the parts of it that could be read: its header, the tag
/// behind it, and the beginning of its audio.
pub fn parse_mp3_metadata(
    header: Option<&[u8]>,
    tag: Option<&[u8]>,
    audio: Option<&[u8]>,
    file_size: u64,
) -> (r: Mp3Metadata)
    ensures
        r@ == described(
            match header {
                Some(h) => Some(h@),
                None => None,
            },
            match tag {
                Some(t) => Some(t@),
                None => None,
            },
            match audio {
                Some(a) => Some(a@),
                None => None,
            },
            file_size,
        ),
        header is Some ==> (audio matches Some(a) ==> (first_frame(a@, 0) matches Some(i) ==> ((
        r.channels@ == "单声道"@ <==> a@[i + 3] >= 192) && (r.channels@ == "立体声"@ <==> a@[i + 3]
            < 192)))),
{
    proof {
        reveal_strlit("单声道");
        reveal_strlit("立体声");
        assert("单声道"@[0] != "立体声"@[0]);
    }
    let mut r = Mp3Metadata::default();
    match header {
        None => r,
        Some(h) => {
            let plan = plan_reading(h);
            match tag {
                Some(t) => {
                    if has_tag_mark(h) {
                        r.read_tag(t, h[3]);
                    }
                },
                None => {},
            }
            match audio {
                Some(a) => {
                    let offset: u64 = plan.audio_offset as u64;
                    let size: u64 = if file_size < offset {
                        0
                    } else {
                        file_size - offset
                    };
                    r.read_audio(a, size);
                },
                None => {},
            }
            r
        },
    }
}

} // verus!
