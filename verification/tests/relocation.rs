use music_manager::messages::message;
use music_manager::relocation::choose_location;
use music_manager::relocation::is_in_folder;
use music_manager::relocation::old_file;
use music_manager::relocation::resolve_db_path;
use music_manager::relocation::Action;
use music_manager::relocation::DatabasePlace;
use music_manager::relocation::Part;
use music_manager::relocation::Relocation;

fn actions(overwrite: bool, found: bool) -> (Vec<Action>, Option<String>) {
    let mut all = Vec::new();
    let mut move_to = Relocation::begin(false, overwrite).ok().unwrap();
    loop {
        let action = move_to.action();
        all.push(action);
        if action == Action::Finish {
            return (all, None);
        }
        if let Err(e) = move_to.done(found) {
            return (all, Some(message(&e)));
        }
    }
}

#[test]
fn the_database_is_copied_before_anything_of_it_is_removed() {
    let (all, error) = actions(false, false);
    assert_eq!(error, None);
    assert_eq!(
        all,
        vec![
            Action::MakeFolder,
            Action::TestWriting,
            Action::LookForDatabase,
            Action::CopyDatabase,
            Action::SwitchConnection,
            Action::SaveLocation,
            Action::RemoveOldFile(Part::Main),
            Action::RemoveOldFile(Part::Log),
            Action::RemoveOldFile(Part::SharedMemory),
            Action::Finish,
        ]
    );
}

#[test]
fn another_database_is_removed_only_where_that_is_asked_for() {
    let (all, error) = actions(false, true);
    assert_eq!(error, Some("目标位置已有数据库文件".to_string()));
    assert_eq!(all, vec![Action::MakeFolder, Action::TestWriting, Action::LookForDatabase]);
    let (all, error) = actions(true, true);
    assert_eq!(error, None);
    assert_eq!(
        all[3..7].to_vec(),
        vec![
            Action::RemoveTargetFile(Part::Main),
            Action::RemoveTargetFile(Part::Log),
            Action::RemoveTargetFile(Part::SharedMemory),
            Action::CopyDatabase,
        ]
    );
    assert_eq!(all.len(), 13);
}

#[test]
fn the_folder_that_the_database_is_in_is_refused() {
    let error = Relocation::begin(true, true).err().unwrap();
    assert_eq!(message(&error), "新位置与当前位置相同");
    assert!(is_in_folder("/data/library.db", "/data"));
    assert!(is_in_folder("/data/library.db", "/data/"));
    assert!(is_in_folder("/data//./library.db", "/data/."));
    assert!(is_in_folder("/Users/me/.music/library.db", "/Users/me/.music"));
    assert!(!is_in_folder("/Users/me/.music/library.db", "/Users/me/.musik"));
    assert!(!is_in_folder("/data/library.db", "data"));
    assert!(!is_in_folder("./data/library.db", "data"));
    assert!(!is_in_folder("/data/a/../library.db", "/data"));
    assert!(is_in_folder("library.db", ""));
    assert!(!is_in_folder("/", "/"));
    assert!(!is_in_folder("/data/library.db", "/other"));
    assert!(!is_in_folder("", ""));
}

#[test]
fn files_of_the_copy_are_not_taken_for_old_ones() {
    assert_eq!(old_file("/a/x.db", Part::Log, "/b/library.db"), Some("/a/x.db-wal".to_string()));
    assert_eq!(old_file("/a/x.db", Part::SharedMemory, "/b/library.db"), Some("/a/x.db-shm".to_string()));
    assert_eq!(old_file("/a/x.db", Part::Main, "/a/x.db"), None);
    assert_eq!(old_file("/a/x.db", Part::Main, "/a//x.db"), None);
    assert_eq!(old_file("/a/./x.db", Part::Log, "/a/x.db-wal/"), None);
    assert_eq!(old_file("/a/.x.db", Part::Main, "/a/x.db"), Some("/a/.x.db".to_string()));
}

#[test]
fn a_place_that_is_blank_is_no_place() {
    assert_eq!(choose_location(Some(" /x ".to_string())), Some(" /x ".to_string()));
    assert_eq!(choose_location(Some(" \n".to_string())), None);
    assert_eq!(choose_location(None), None);
}

#[test]
fn a_recorded_place_is_used_as_it_was_recorded() {
    match resolve_db_path(Some("/data/custom/sub/library.db".to_string())) {
        DatabasePlace::Recorded { path, folder } => {
            assert_eq!(path, "/data/custom/sub/library.db");
            assert_eq!(folder.as_deref(), Some("/data/custom/sub"));
        }
        DatabasePlace::Usual => panic!("the place is not blank"),
    }
    match resolve_db_path(Some("/".to_string())) {
        DatabasePlace::Recorded { path, folder } => assert_eq!((path.as_str(), folder), ("/", None)),
        DatabasePlace::Usual => panic!("the place is not blank"),
    }
    assert!(matches!(resolve_db_path(None), DatabasePlace::Usual));
    assert!(matches!(resolve_db_path(Some("\t ".to_string())), DatabasePlace::Usual));
}
