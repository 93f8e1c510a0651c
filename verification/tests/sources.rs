use music_manager::paths::file_name;
use music_manager::paths::folder_name;
use music_manager::probe::is_mp3;
use music_manager::probe::mime_from_ext;
use music_manager::sources::each_once;
use std::path::Path;
use std::path::PathBuf;

fn texts(paths: &[&str]) -> Vec<String> {
    paths.iter().map(|p| p.to_string()).collect()
}

#[test]
fn paths_are_listed_once_and_in_order() {
    let found = texts(&["/m/b.mp3", "/m/a b/x.mp3", "/m/a/x.mp3", "/m/b.mp3", "/m//b.mp3", "/m/a"]);
    assert_eq!(each_once(found), texts(&["/m/a", "/m/a/x.mp3", "/m/a b/x.mp3", "/m/b.mp3"]));
    assert_eq!(each_once(Vec::new()), Vec::<String>::new());
    assert_eq!(each_once(texts(&["/m//b.mp3", "/m/b.mp3/"])), texts(&["/m//b.mp3"]));
}

#[test]
fn paths_are_listed_as_sorting_and_dropping_repeats_does() {
    let pieces = ["", "/", ".", "..", "a", "a b", "a.mp3", "A", "é", "/x", "./a", "../a", "a/../b", "a//b", "a/./b", "b\\c", "C:x", "//h/s"];
    let mut paths = Vec::new();
    for a in pieces {
        for b in pieces {
            paths.push(format!("{a}/{b}"));
            paths.push(format!("{b}{a}"));
        }
    }
    let mut expected: Vec<PathBuf> = paths.iter().map(PathBuf::from).collect();
    expected.sort();
    expected.dedup();
    let expected: Vec<String> = expected.iter().map(|p| p.to_string_lossy().into_owned()).collect();
    assert_eq!(each_once(paths), expected);
}

#[test]
fn paths_are_read_by_the_rules_of_one_platform() {
    for path in ["C:\\Music\\Live\\a.mp3", "C:a.mp3", "x\\y/a.MP3", "\\\\host\\share\\a.mp3", "//host/share/a.mp3", "1:a.mp3", "C:.\\a.mp3"] {
        let name = Path::new(path).file_name().map(|n| n.to_string_lossy().into_owned());
        assert_eq!(file_name(path), name, "{path}");
        assert!(is_mp3(path), "{path}");
        assert_eq!(mime_from_ext(path), "audio/mpeg", "{path}");
        let folder = Path::new(path).parent().and_then(|p| p.file_name());
        assert_eq!(folder_name(path), folder.map(|n| n.to_string_lossy().into_owned()).unwrap_or_default(), "{path}");
    }
}
