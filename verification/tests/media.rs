use music_manager::base64::base64_encode;
use music_manager::id3::decode_id3_text;
use music_manager::id3::parse_apic;
use music_manager::id3::synchsafe;
use music_manager::mp3::parse_mp3_metadata;
use music_manager::mp3::plan_reading;
use music_manager::mp3::Mp3Metadata;
use music_manager::paths::extension;
use music_manager::paths::folder_name;
use music_manager::paths::stem;
use music_manager::probe::existing;
use music_manager::probe::is_mp3;
use music_manager::probe::is_mp3_name;
use music_manager::probe::mime_from_ext;
use music_manager::probe::mime_of_name;
use music_manager::probe::probe_path;
use music_manager::seconds::Seconds;
use music_manager::text::not_after;
use music_manager::text::same_nocase;
use music_manager::text::trim;

#[test]
fn base64_is_written_with_fillers() {
    assert_eq!(base64_encode(b""), "");
    assert_eq!(base64_encode(b"M"), "TQ==");
    assert_eq!(base64_encode(b"Ma"), "TWE=");
    assert_eq!(base64_encode(b"Man"), "TWFu");
    assert_eq!(base64_encode(b"light work."), "bGlnaHQgd29yay4=");
    assert_eq!(base64_encode(&[0xff, 0xef, 0xfe, 0x00]), "/+/+AA==");
    let bytes: Vec<u8> = (0..=255).collect();
    for n in (0..=255).step_by(3) {
        assert_eq!(base64_encode(&bytes), format!("{}{}", base64_encode(&bytes[..n]), base64_encode(&bytes[n..])));
    }
}

#[test]
fn sizes_are_read_seven_bits_at_a_time() {
    assert_eq!(synchsafe(&[0, 0, 2, 1]), 257);
    assert_eq!(synchsafe(&[0x7f, 0x7f, 0x7f, 0x7f]), 0x0fff_ffff);
    assert_eq!(synchsafe(&[0x80, 0x80, 0x80, 0x81]), 1);
    assert_eq!(synchsafe(&[1, 2, 3]), 0);
    assert_eq!(synchsafe(&[0, 0, 0, 5, 9]), 5);
}

#[test]
fn texts_are_read_in_every_way_they_are_written() {
    assert_eq!(decode_id3_text(b"\x03  Hello \0\0"), "Hello");
    assert_eq!(decode_id3_text(b"\x00\0 x \0"), "x");
    assert_eq!(decode_id3_text("\u{3}温暖".as_bytes()), "温暖");
    assert_eq!(decode_id3_text(&[3, b'a', 0xff, b'b']), "a\u{fffd}b");
    assert_eq!(decode_id3_text(&[1, 0xff, 0xfe, 0x2d, 0x4e, 0, 0, 0x41, 0]), "中");
    assert_eq!(decode_id3_text(&[1, 0xfe, 0xff, 0x4e, 0x2d]), "中");
    assert_eq!(decode_id3_text(&[1, 0x4e, 0x2d]), "中");
    assert_eq!(decode_id3_text(&[2, 0x4e, 0x2d, 0x00, 0x20]), "中");
    assert_eq!(decode_id3_text(&[2, 0xff, 0xfe, 0x00, 0x41]), "\u{fffe}A");
    assert_eq!(decode_id3_text(&[2, 0xd8, 0x3d, 0xde, 0x00]), "😀");
    assert_eq!(decode_id3_text(&[2, 0xd8, 0x3d, 0x00, 0x41, 0xde, 0x00]), "\u{fffd}A\u{fffd}");
    assert_eq!(decode_id3_text(&[2, 0x00, 0x41, 0x00]), "A");
    assert_eq!(decode_id3_text(&[4, b'x']), "");
    assert_eq!(decode_id3_text(&[3]), "");
    assert_eq!(decode_id3_text(&[]), "");
}

fn apic(encoding: u8, mime: &[u8], description: &[u8], picture: &[u8]) -> Vec<u8> {
    let mut frame = vec![encoding];
    frame.extend_from_slice(mime);
    frame.push(0);
    frame.extend_from_slice(description);
    frame.extend_from_slice(picture);
    frame
}

#[test]
fn covers_are_taken_from_frames() {
    assert_eq!(parse_apic(&apic(0, b"image/jpeg", b"\x03d\0", b"Man")), Some("data:image/jpeg;base64,TWFu".to_string()));
    assert_eq!(parse_apic(&apic(3, b"IMAGE/JPG", b"\x03\0", b"M")), Some("data:image/jpeg;base64,TQ==".to_string()));
    assert_eq!(parse_apic(&apic(1, b"image/png", b"\x03a\0\0", b"Ma")), Some("data:image/png;base64,TWE=".to_string()));
    assert_eq!(parse_apic(&apic(2, b"image/png", b"\x03\0\0\0\0\0", b"Ma")), Some("data:image/png;base64,AABNYQ==".to_string()));
}

#[test]
fn frames_without_a_cover_give_none() {
    assert_eq!(parse_apic(b"\0\0\0"), None);
    assert_eq!(parse_apic(b"\0image/png"), None);
    assert_eq!(parse_apic(&apic(0, b"image/gif", b"\x03\0", b"M")), None);
    assert_eq!(parse_apic(&apic(0, b"image/p\xffg", b"\x03\0", b"M")), None);
    assert_eq!(parse_apic(b"\0image/png\0"), None);
    assert_eq!(parse_apic(&apic(0, b"image/png", b"\x03abc", b"")), None);
    assert_eq!(parse_apic(&apic(0, b"image/png", b"\x03\0", b"")), None);
    assert_eq!(parse_apic(&apic(1, b"image/png", b"\x03a\0", b"")), None);
    let large = vec![1u8; 2 * 1024 * 1024 + 1];
    assert_eq!(parse_apic(&apic(0, b"image/png", b"\x03\0", &large)), None);
    assert!(parse_apic(&apic(0, b"image/png", b"\x03\0", &large[1..])).is_some());
}

fn frame(id: &[u8], body: &[u8]) -> Vec<u8> {
    let mut f = id.to_vec();
    f.extend_from_slice(&(body.len() as u32).to_be_bytes());
    f.extend_from_slice(&[0, 0]);
    f.extend_from_slice(body);
    f
}

fn header(version: u8, size: [u8; 4]) -> Vec<u8> {
    let mut h = b"ID3".to_vec();
    h.extend_from_slice(&[version, 0, 0]);
    h.extend_from_slice(&size);
    h
}

#[test]
fn the_header_says_what_to_read() {
    let plan = plan_reading(&header(3, [0, 0, 2, 1]));
    assert_eq!((plan.tag_size, plan.audio_offset), (Some(257), 267));
    let plan = plan_reading(&header(3, [8, 0, 0, 0]));
    assert_eq!((plan.tag_size, plan.audio_offset), (Some(16 * 1024 * 1024), 16 * 1024 * 1024 + 10));
    let plan = plan_reading(&header(3, [8, 0, 0, 1]));
    assert_eq!((plan.tag_size, plan.audio_offset), (None, 16 * 1024 * 1024 + 11));
    let plan = plan_reading(&[0xff, 0xfb, 0x90, 0, 0, 0, 0, 0, 0, 0]);
    assert_eq!((plan.tag_size, plan.audio_offset), (None, 0));
    assert_eq!(plan.audio_size, 64 * 1024);
}

#[test]
fn a_tag_is_read_frame_by_frame() {
    let mut tag = frame(b"TIT2", b"\x03Title");
    tag.extend(frame(b"TPE1", b"\x03Artist"));
    tag.extend(frame(b"TALB", b"\x03Album"));
    tag.extend(frame(b"TCON", b"\x03Genre"));
    tag.extend(frame(b"TXXX", b"\x03other"));
    tag.extend(frame(b"TYER", b"\x031999-12-31"));
    tag.extend(frame(b"APIC", &apic(0, b"image/gif", b"\x03\0", b"G")));
    tag.extend(frame(b"APIC", &apic(0, b"image/png", b"\x03\0", b"Man")));
    tag.extend(frame(b"APIC", &apic(0, b"image/png", b"\x03\0", b"no")));
    tag.extend(vec![0u8; 20]);
    tag.extend(frame(b"TIT2", b"\x03behind the end"));
    let m = parse_mp3_metadata(Some(&header(3, [0, 0, 0, 0])), Some(&tag), None, 0);
    assert_eq!((m.title.as_str(), m.artist.as_str(), m.album.as_str()), ("Title", "Artist", "Album"));
    assert_eq!((m.genre.as_str(), m.year.as_str()), ("Genre", "1999"));
    assert_eq!(m.cover_art, "data:image/png;base64,TWFu");
    assert_eq!((m.bitrate, m.sample_rate, m.audio_bytes), (0, 0, 0));
}

#[test]
fn a_tag_ends_where_a_frame_does_not_fit() {
    let mut tag = frame(b"TIT2", b"\x03one");
    tag.extend(frame(b"TIT2", b"\x03two"));
    let whole = parse_mp3_metadata(Some(&header(3, [0, 0, 0, 0])), Some(&tag), None, 0);
    assert_eq!(whole.title, "two");
    tag.pop();
    let cut = parse_mp3_metadata(Some(&header(3, [0, 0, 0, 0])), Some(&tag), None, 0);
    assert_eq!(cut.title, "one");
    let mut empty = frame(b"TIT2", b"");
    empty.extend(frame(b"TPE1", b"\x03never"));
    let m = parse_mp3_metadata(Some(&header(3, [0, 0, 0, 0])), Some(&empty), None, 0);
    assert_eq!((m.title.as_str(), m.artist.as_str()), ("", ""));
    let unread = parse_mp3_metadata(Some(&header(3, [0, 0, 0, 9])), None, None, 0);
    assert_eq!(unread.title, "");
    let nothing = parse_mp3_metadata(None, Some(&tag), Some(&[0xff, 0xfb, 0x90, 0]), 10);
    assert_eq!((nothing.title.as_str(), nothing.bitrate), ("", 0));
}

#[test]
fn frame_sizes_depend_on_the_version() {
    let mut body = vec![3u8];
    body.extend(vec![b'x'; 199]);
    let mut tag = b"TIT2".to_vec();
    tag.extend_from_slice(&[0, 0, 1, 0x48, 0, 0]);
    tag.extend_from_slice(&body);
    let m = parse_mp3_metadata(Some(&header(4, [0, 0, 0, 0])), Some(&tag), None, 0);
    assert_eq!(m.title.len(), 199);
    let m = parse_mp3_metadata(Some(&header(3, [0, 0, 0, 0])), Some(&tag), None, 0);
    assert_eq!(m.title, "");
}

fn audio(data: &[u8], size: u64) -> Mp3Metadata {
    parse_mp3_metadata(Some(&[0u8; 10]), None, Some(data), size)
}

#[test]
fn the_first_audio_frame_is_found() {
    let m = audio(&[0xff, 0xfb, 0x90, 0x00], 16000);
    assert_eq!((m.bitrate, m.sample_rate, m.channels.as_str(), m.audio_bytes), (128, 44100, "立体声", 16000));
    let m = audio(&[0, 0xff, 0xff, 0xf3, 0x14, 0xc0, 9], 5);
    assert_eq!((m.bitrate, m.sample_rate, m.channels.as_str()), (8, 24000, "单声道"));
    let m = audio(&[0xff, 0xe3, 0xe8, 0x80], 5);
    assert_eq!((m.bitrate, m.sample_rate, m.channels.as_str()), (160, 8000, "立体声"));
    let m = audio(&[0xff, 0xfd, 0xe0, 0x00], 5);
    assert_eq!((m.bitrate, m.sample_rate), (384, 44100));
    let tagged = parse_mp3_metadata(Some(&header(3, [0, 0, 1, 0])), None, Some(&[0xff, 0xfb, 0x90, 0]), 100);
    assert_eq!((tagged.bitrate, tagged.audio_bytes), (128, 0));
    let tagged = parse_mp3_metadata(Some(&header(3, [0, 0, 0, 10])), None, Some(&[0xff, 0xfb, 0x90, 0]), 100);
    assert_eq!(tagged.audio_bytes, 80);
}

#[test]
fn bytes_that_begin_no_audio_frame_are_passed_over() {
    for bytes in [
        [0xfe, 0xfb, 0x90, 0x00],
        [0xff, 0xdb, 0x90, 0x00],
        [0xff, 0xeb, 0x90, 0x00],
        [0xff, 0xf9, 0x90, 0x00],
        [0xff, 0xfb, 0x00, 0x00],
        [0xff, 0xfb, 0xf0, 0x00],
        [0xff, 0xfb, 0x9c, 0x00],
    ] {
        assert_eq!(audio(&bytes, 9).bitrate, 0);
        let mut both = bytes.to_vec();
        both.extend_from_slice(&[0xff, 0xfb, 0x50, 0x00]);
        assert_eq!(audio(&both, 9).bitrate, 64);
    }
    assert_eq!(audio(&[0xff, 0xfb, 0x90], 9).bitrate, 0);
    assert_eq!(audio(&[], 9).bitrate, 0);
}

#[test]
fn media_types_follow_from_how_names_end() {
    assert_eq!(mime_from_ext("/a/b.MP3"), "audio/mpeg");
    assert_eq!(mime_from_ext("x.wav"), "audio/wav");
    assert_eq!(mime_from_ext("x.Flac"), "audio/flac");
    assert_eq!(mime_from_ext("x.m4a"), "audio/mp4");
    assert_eq!(mime_from_ext("x.aac"), "audio/aac");
    assert_eq!(mime_from_ext("x.ogg"), "audio/ogg");
    assert_eq!(mime_from_ext("x.y.opus"), "audio/opus");
    assert_eq!(mime_from_ext("mp3"), "audio/*");
    assert_eq!(mime_from_ext(".mp3"), "audio/*");
    assert_eq!(mime_from_ext("/a.mp3/.."), "audio/*");
    assert_eq!(mime_from_ext(""), "audio/*");
    assert_eq!(mime_of_name(Some("ÄÖ.ÀAC")), "audio/*");
    assert_eq!(mime_of_name(None), "audio/*");
    assert!(is_mp3("/a/b.mP3"));
    assert!(!is_mp3("/a/b.mp3x"));
    assert!(!is_mp3("/a/b.mp3/c"));
    assert!(!is_mp3("mp3"));
    assert!(is_mp3("/music/Live: 1999/a.mp3/."));
    assert!(is_mp3_name(Some("x.Mp3")));
    assert!(!is_mp3_name(Some(".mp3")));
    assert!(!is_mp3_name(None));
}

#[test]
fn names_are_taken_apart_at_the_last_dot() {
    assert_eq!(extension("a.b.c"), Some("c".to_string()));
    assert_eq!(extension("a."), Some(String::new()));
    assert_eq!(extension(".a"), None);
    assert_eq!(extension("a"), None);
    assert_eq!(stem("a.b.c"), "a.b");
    assert_eq!(stem(".a"), "");
    assert_eq!(stem("a"), "a");
    assert_eq!(folder_name("/x/y/z.mp3"), "y");
    assert_eq!(folder_name("z.mp3"), "");
    assert_eq!(folder_name("/z.mp3"), "");
    assert_eq!(folder_name("/music/R.E.M./a.mp3"), "R.E.M.");
    assert_eq!(folder_name("/music/Live: 1999/a.mp3"), "Live: 1999");
    assert_eq!(folder_name("/music//x/./a.mp3"), "x");
    assert_eq!(folder_name("/music/../a.mp3"), "");
    assert_eq!(folder_name("./a.mp3"), "");
    assert_eq!(folder_name("/music/x/a.mp3/"), "x");
}

#[test]
fn a_file_is_probed() {
    let mut mp3 = Mp3Metadata::default();
    mp3.artist = "A".to_string();
    mp3.bitrate = 128;
    let duration = Seconds { bits: 1.5f64.to_bits() };
    let p = probe_path("/Music/Album/a.song.mp3".to_string(), Some(77), mp3, duration);
    assert_eq!((p.path.as_str(), p.name.as_str(), p.file_name.as_str()), ("/Music/Album/a.song.mp3", "a.song", "a.song.mp3"));
    assert_eq!((p.file_size, p.exists, p.mime_type.as_str()), (77, true, "audio/mpeg"));
    assert_eq!((p.folder_album.as_str(), p.artist.as_str(), p.bitrate, p.duration), ("Album", "A", 128, duration));

    let mut titled = Mp3Metadata::default();
    titled.title = "T".to_string();
    let p = probe_path("..".to_string(), None, titled, duration);
    assert_eq!((p.name.as_str(), p.file_name.as_str(), p.file_size, p.exists), ("T", "..", 0, false));

    let found = vec![
        probe_path("a.mp3".to_string(), Some(1), Mp3Metadata::default(), duration),
        probe_path("b.mp3".to_string(), None, Mp3Metadata::default(), duration),
        probe_path("c.mp3".to_string(), Some(2), Mp3Metadata::default(), duration),
    ];
    let names: Vec<String> = existing(found).into_iter().map(|p| p.file_name).collect();
    assert_eq!(names, vec!["a.mp3".to_string(), "c.mp3".to_string()]);
}

#[test]
fn texts_are_trimmed_and_ordered() {
    assert_eq!(trim(" \u{3000}a b\u{a0}\n"), "a b");
    assert_eq!(trim("\u{200b}a"), "\u{200b}a");
    assert_eq!(trim(" \t "), "");
    assert!(same_nocase("AbC", "aBc"));
    assert!(!same_nocase("Ä", "ä"));
    assert!(not_after("a", "ab"));
    assert!(not_after("Z", "a"));
    assert!(!not_after("b", "abc"));
    assert!(not_after("", ""));
}
