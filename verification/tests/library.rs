use music_manager::catalog::Catalog;
use music_manager::catalog::CategoryRow;
use music_manager::failure::LibraryError;
use music_manager::library::CandidateKind;
use music_manager::library::ClipInput;
use music_manager::library::Library;
use music_manager::library::MusicInput;
use music_manager::locations::locate;
use music_manager::locations::lookup;
use music_manager::locations::needs_bookmark;
use music_manager::locations::plan_locations;
use music_manager::locations::Located;
use music_manager::locations::Lookup;
use music_manager::messages::message;
use music_manager::seconds::validate_clip_range;
use music_manager::seconds::Seconds;

fn seconds(x: f64) -> Seconds {
    Seconds { bits: x.to_bits() }
}

fn texts(items: &[&str]) -> Vec<String> {
    items.iter().map(|s| s.to_string()).collect()
}

fn said<T>(r: Result<T, LibraryError>) -> String {
    match r {
        Ok(_) => panic!("not refused"),
        Err(e) => message(&e),
    }
}

fn test_library() -> Library {
    Library {
        catalog: Catalog {
            categories: vec![
                CategoryRow { id: 1, name: "情绪".to_string(), created_at: 1 },
                CategoryRow { id: 2, name: "未分类".to_string(), created_at: 2 },
            ],
            category_seq: 2,
            tags: Vec::new(),
            tag_seq: 0,
        },
        music: Vec::new(),
        duration_column: 13,
        clips: Vec::new(),
        candidates: Vec::new(),
        music_tags: Vec::new(),
        clip_tags: Vec::new(),
        album_tags: Vec::new(),
    }
}

fn music(id: &str, path: &str) -> MusicInput {
    MusicInput {
        id: id.to_string(),
        name: format!("name of {id}"),
        file_name: "f.mp3".to_string(),
        path: path.to_string(),
        album: "A".to_string(),
        album_source: "folder".to_string(),
        artist: "artist".to_string(),
        genre: "genre".to_string(),
        year: "1999".to_string(),
        channels: "立体声".to_string(),
        sample_rate: 44100,
        bitrate: 128,
        duration: seconds(12.5),
        file_size: 1000,
        mime_type: "audio/mpeg".to_string(),
        cover_art: format!("cover of {id}"),
        created_at: 5,
        updated_at: 6,
        tags: Vec::new(),
        tag_ids: None,
        new_tags: Vec::new(),
    }
}

fn clip(id: &str, music_id: &str, start: f64, end: f64) -> ClipInput {
    ClipInput {
        id: id.to_string(),
        music_id: music_id.to_string(),
        name: format!("name of {id}"),
        start: seconds(start),
        end: seconds(end),
        tags: Vec::new(),
        tag_ids: None,
        new_tags: Vec::new(),
        created_at: 5,
        updated_at: 6,
    }
}

#[test]
fn a_music_is_read_back_as_it_was_created() {
    let mut library = test_library();
    let mut input = music("m1", "/A/f.mp3");
    input.tags = texts(&["b", " a ", "B"]);
    library.create_music(input, vec![1, 2], 10).unwrap();

    let m = library.get_music("m1").unwrap().unwrap();
    assert_eq!(m.id, "m1");
    assert_eq!(m.name, "name of m1");
    assert_eq!(m.path, "/A/f.mp3");
    assert_eq!(m.cover_art, "cover of m1");
    assert_eq!(m.duration, seconds(12.5));
    assert_eq!(m.file_size, 1000);
    assert_eq!((m.created_at, m.updated_at), (5, 6));
    assert_eq!(m.tags, texts(&["a", "b"]));
    assert_eq!(m.tag_ids, vec![2, 1]);
    assert_eq!(library.music[0].file_bookmark, Some(vec![1, 2]));
    assert!(library.get_music("m2").unwrap().is_none());
    assert!(library.is_sound());
}

#[test]
fn a_music_that_clashes_is_refused_and_nothing_changes() {
    let mut library = test_library();
    library.create_music(music("m1", "/1"), Vec::new(), 10).unwrap();
    let id_text = "插入音乐失败: UNIQUE constraint failed: music.id";
    let path_text = "插入音乐失败: UNIQUE constraint failed: music.path";
    assert_eq!(said(library.create_music(music("m1", "/2"), Vec::new(), 10)), id_text);
    assert_eq!(said(library.create_music(music("m2", "/1"), Vec::new(), 10)), path_text);
    assert_eq!(said(library.create_music(music("m1", "/1"), Vec::new(), 10)), path_text);
    let mut large = music("m3", "/3");
    large.file_size = i64::MAX as u64 + 1;
    assert_eq!(
        said(library.create_music(large, Vec::new(), 10)),
        "插入音乐失败: out of range integral type conversion attempted"
    );
    let mut wrong = music("m4", "/4");
    wrong.tag_ids = Some(vec![99]);
    wrong.new_tags = texts(&["x"]);
    assert_eq!(said(library.create_music(wrong, Vec::new(), 10)), "所选 Tag 不存在");
    assert_eq!(library.music.len(), 1);
    assert!(library.catalog.tags.is_empty());
}

#[test]
fn a_music_is_changed_but_keeps_the_time_of_its_creation() {
    let mut library = test_library();
    library.create_music(music("m1", "/1"), vec![1], 10).unwrap();
    library.create_music(music("m2", "/2"), vec![2], 10).unwrap();
    let mut change = music("m1", "/moved");
    change.name = "new name".to_string();
    change.created_at = 77;
    change.updated_at = 78;
    change.tag_ids = Some(Vec::new());
    change.new_tags = texts(&["t"]);
    library.update_music(change, vec![9], 11).unwrap();
    let m = library.get_music("m1").unwrap().unwrap();
    assert_eq!((m.name.as_str(), m.path.as_str(), m.created_at, m.updated_at), ("new name", "/moved", 5, 78));
    assert_eq!(m.tags, texts(&["t"]));
    assert_eq!(library.music[0].file_bookmark, Some(vec![9]));
    assert_eq!(library.get_music("m2").unwrap().unwrap().path, "/2");

    assert_eq!(said(library.update_music(music("m1", "/2"), Vec::new(), 12)), "更新音乐失败: UNIQUE constraint failed: music.path");
    assert!(library.update_music(music("m1", "/moved"), Vec::new(), 12).is_ok(), "its own path is no clash");
    let mut large = music("gone", "/9");
    large.file_size = u64::MAX;
    assert_eq!(
        said(library.update_music(large, Vec::new(), 12)),
        "更新音乐失败: out of range integral type conversion attempted"
    );
}

#[test]
fn a_music_that_does_not_exist_is_passed_over_but_carries_no_tags() {
    let mut library = test_library();
    library.create_music(music("m1", "/1"), Vec::new(), 10).unwrap();
    assert!(library.update_music(music("gone", "/1"), Vec::new(), 11).is_ok());
    assert_eq!(library.music.len(), 1);
    let mut tagged = music("gone", "/1");
    tagged.tags = texts(&["t"]);
    assert_eq!(said(library.update_music(tagged, Vec::new(), 11)), "保存 Tag 关联失败: FOREIGN KEY constraint failed");
    assert!(library.catalog.tags.is_empty(), "the tag made on the way is undone");
}

#[test]
fn a_music_goes_with_all_that_hangs_on_it() {
    let mut library = test_library();
    let mut input = music("m1", "/1");
    input.tags = texts(&["t"]);
    library.create_music(input, Vec::new(), 10).unwrap();
    library.create_music(music("m2", "/2"), Vec::new(), 10).unwrap();
    let mut part = clip("c1", "m1", 0.0, 1.0);
    part.tags = texts(&["t"]);
    library.create_clip(part, 10).unwrap();
    library.create_clip(clip("c2", "m2", 0.0, 1.0), 10).unwrap();
    for (target, kind) in [("m1", "music"), ("c1", "clip"), ("m2", "music"), ("c2", "clip")] {
        library.create_candidate(target, kind, 1).unwrap();
    }

    library.delete_music("m1");

    assert!(library.get_music("m1").unwrap().is_none());
    assert!(library.get_clip("c1").is_none());
    assert!(library.music_tags.is_empty() && library.clip_tags.is_empty());
    let left: Vec<&str> = library.candidates.iter().map(|c| c.target_id.as_str()).collect();
    assert_eq!(left, vec!["m2", "c2"]);
    assert_eq!(library.catalog.tags.len(), 1, "the tag stays");
    library.delete_music("gone");
    assert_eq!(library.music.len(), 1);
    library.delete_music_batch(texts(&["gone", "m2"]));
    assert!(library.music.is_empty() && library.clips.is_empty() && library.candidates.is_empty());
    assert!(library.is_sound());
}

#[test]
fn a_clip_is_read_back_and_changed() {
    let mut library = test_library();
    library.create_music(music("m1", "/1"), Vec::new(), 10).unwrap();
    let mut input = clip("c1", "m1", 1.5, 2.5);
    input.tags = texts(&["x"]);
    library.create_clip(input, 10).unwrap();
    let c = library.get_clip("c1").unwrap();
    assert_eq!((c.music_id.as_str(), c.name.as_str()), ("m1", "name of c1"));
    assert_eq!((c.start, c.end), (seconds(1.5), seconds(2.5)));
    assert_eq!(c.tags, texts(&["x"]));

    let mut change = clip("c1", "other", 3.0, 4.0);
    change.name = "n".to_string();
    change.created_at = 70;
    change.updated_at = 71;
    library.update_clip(change, 11).unwrap();
    let c = library.get_clip("c1").unwrap();
    assert_eq!((c.music_id.as_str(), c.name.as_str(), c.created_at, c.updated_at), ("m1", "n", 5, 71));
    assert_eq!((c.start, c.end), (seconds(3.0), seconds(4.0)));
    assert!(c.tags.is_empty());
    assert!(library.update_clip(clip("gone", "m1", 0.0, 1.0), 11).is_ok());
    assert_eq!(library.clips.len(), 1);
}

#[test]
fn a_clip_that_cannot_be_is_refused() {
    let mut library = test_library();
    library.create_music(music("m1", "/1"), Vec::new(), 10).unwrap();
    library.create_clip(clip("c1", "m1", 0.0, 1.0), 10).unwrap();
    assert_eq!(said(library.create_clip(clip("c1", "gone", 0.0, 1.0), 10)), "插入片段失败: UNIQUE constraint failed: clips.id");
    assert_eq!(said(library.create_clip(clip("c2", "gone", 0.0, 1.0), 10)), "插入片段失败: FOREIGN KEY constraint failed");
    assert_eq!(said(library.create_clip(clip("c2", "m1", -1.0, 1.0), 10)), "片段起点不能为负数");
    assert_eq!(said(library.update_clip(clip("c1", "m1", 2.0, 2.0), 10)), "片段终点必须大于起点");
    assert_eq!(library.clips.len(), 1);
}

#[test]
fn ranges_of_clips_are_numbers_in_order() {
    let start_error = "片段起点不能为负数";
    let end_error = "片段终点必须大于起点";
    assert!(validate_clip_range(seconds(0.0), seconds(0.25)).is_ok());
    assert!(validate_clip_range(seconds(-0.0), seconds(f64::MIN_POSITIVE)).is_ok());
    assert!(validate_clip_range(seconds(1e300), seconds(1.1e300)).is_ok());
    for start in [-0.001, f64::NAN, f64::INFINITY, f64::NEG_INFINITY, -f64::NAN] {
        assert_eq!(said(validate_clip_range(seconds(start), seconds(1.0))), start_error);
    }
    for end in [2.0, 1.9, -3.0, f64::NAN, f64::INFINITY, -0.0] {
        assert_eq!(said(validate_clip_range(seconds(2.0), seconds(end))), end_error);
    }
    assert_eq!(said(validate_clip_range(seconds(0.0), seconds(-0.0))), end_error);
}

#[test]
fn clips_are_removed_one_by_one_and_in_batches() {
    let mut library = test_library();
    library.create_music(music("m1", "/1"), Vec::new(), 10).unwrap();
    for id in ["a", "b", "c"] {
        let mut input = clip(id, "m1", 0.0, 1.0);
        input.tags = texts(&["t"]);
        library.create_clip(input, 10).unwrap();
        library.create_candidate(id, "clip", 1).unwrap();
    }
    library.create_candidate("m1", "music", 1).unwrap();
    library.delete_clip("b");
    library.delete_clip("b");
    assert_eq!(library.clips.len(), 2);
    assert_eq!(library.clip_tags.len(), 2);
    assert_eq!(library.candidates.len(), 3);
    library.delete_clip_batch(texts(&["c", "gone", "a"]));
    assert!(library.clips.is_empty() && library.clip_tags.is_empty());
    assert_eq!(library.candidates.len(), 1);
    assert_eq!(library.candidates[0].kind, CandidateKind::Music);
}

#[test]
fn music_and_clips_are_listed_in_order() {
    let mut library = test_library();
    for (id, created) in [("late", 30), ("early", 10), ("middle", 20)] {
        let mut input = music(id, id);
        input.created_at = created;
        input.tags = texts(&[id]);
        library.create_music(input, Vec::new(), 10).unwrap();
    }
    let listed = library.list_music().unwrap();
    let ids: Vec<&str> = listed.iter().map(|m| m.id.as_str()).collect();
    assert_eq!(ids, vec!["early", "middle", "late"]);
    assert!(listed.iter().all(|m| m.cover_art.is_empty()));
    assert_eq!(listed[0].tags, texts(&["early"]));

    for (id, music_id, start, created) in [("a", "late", 5.0, 3), ("b", "late", 1.0, 4), ("c", "late", 1.0, 2), ("d", "early", 0.0, 1)] {
        let mut input = clip(id, music_id, start, 9.0);
        input.created_at = created;
        library.create_clip(input, 10).unwrap();
    }
    let ids: Vec<String> = library.list_clips().iter().map(|c| c.id.clone()).collect();
    assert_eq!(ids, texts(&["d", "c", "a", "b"]));
    let ids: Vec<String> = library.list_clips_for_music("late").iter().map(|c| c.id.clone()).collect();
    assert_eq!(ids, texts(&["c", "b", "a"]));
    assert!(library.list_clips_for_music("gone").is_empty());
    let counts = library.get_library_counts();
    assert_eq!((counts.music, counts.clips), (3, 4));
}

#[test]
fn covers_and_paths_are_found_in_batches() {
    let mut library = test_library();
    for id in ["a", "b", "c"] {
        library.create_music(music(id, &format!("/{id}")), Vec::new(), 10).unwrap();
    }
    let covers = library.get_music_cover_arts(texts(&["c", "gone", "a"]));
    let found: Vec<(&str, &str)> = covers.iter().map(|c| (c.id.as_str(), c.cover_art.as_str())).collect();
    assert_eq!(found, vec![("a", "cover of a"), ("c", "cover of c")]);
    assert!(library.get_music_cover_arts(Vec::new()).is_empty());
    assert_eq!(library.find_existing_music_paths(texts(&["/c", "/x", "/b", "/b"])), texts(&["/b", "/c"]));
    assert!(library.find_existing_music_paths(Vec::new()).is_empty());

    let mut many: Vec<String> = (0..900).map(|i| format!("/{i}")).collect();
    many[3] = "/a".to_string();
    many.push("/a".to_string());
    many.push("/b".to_string());
    assert_eq!(library.find_existing_music_paths(many), texts(&["/a", "/a", "/b"]));
}

#[test]
fn candidates_are_picked_and_taken_back() {
    let mut library = test_library();
    library.create_music(music("m1", "/1"), Vec::new(), 10).unwrap();
    library.create_clip(clip("c1", "m1", 0.0, 1.0), 10).unwrap();
    assert_eq!(said(library.create_candidate("m1", "song", 1)), "无效的候选类型");
    assert_eq!(said(library.create_candidate("m2", "music", 1)), "候选目标不存在");
    assert_eq!(said(library.create_candidate("m1", "clip", 1)), "候选目标不存在");
    library.create_candidate("m1", "music", 9).unwrap();
    library.create_candidate("c1", "clip", 3).unwrap();
    library.create_candidate("m1", "music", 1).unwrap();
    let listed: Vec<(String, String)> = library.list_candidates().into_iter().map(|e| (e.target_id, e.kind)).collect();
    assert_eq!(
        listed,
        vec![("c1".to_string(), "clip".to_string()), ("m1".to_string(), "music".to_string())]
    );
    library.delete_candidate("c1");
    library.delete_candidate("gone");
    assert_eq!(library.candidates.len(), 1);
    library.clear_candidates();
    assert!(library.list_candidates().is_empty());
}

#[test]
fn tags_are_created_where_they_belong() {
    let mut library = test_library();
    let warm = library.create_tag(" 温暖 ", None, Some("情绪"), None, 10).unwrap();
    assert_eq!((warm.id, warm.name.as_str(), warm.category_id, warm.category.as_str()), (1, "温暖", 1, "情绪"));
    assert_eq!((warm.path.as_str(), warm.parent_id, warm.music_count), ("温暖", None, 0));
    let child = library.create_tag("soft", Some(1), None, Some(1), 10).unwrap();
    assert_eq!((child.path.as_str(), child.category_id), ("温暖 / soft", 1));
    let loose = library.create_tag("x", None, None, None, 10).unwrap();
    assert_eq!((loose.category_id, loose.category.as_str()), (2, ""));
    let blank = library.create_tag("y", None, Some("  "), None, 10).unwrap();
    assert_eq!(blank.category_id, 2);
    let fresh = library.create_tag("z", None, Some(" New "), None, 10).unwrap();
    assert_eq!((fresh.category_id, fresh.category.as_str()), (6, "New"));
    let by_id = library.create_tag("w", Some(6), Some("ignored"), None, 10).unwrap();
    assert_eq!(by_id.category_id, 6);
    assert!(library.is_sound());
}

#[test]
fn tags_that_cannot_be_are_refused() {
    let mut library = test_library();
    library.create_tag("a", Some(1), None, None, 10).unwrap();
    assert_eq!(said(library.create_tag(" \t", None, None, None, 10)), "Tag 名称不能为空");
    assert_eq!(said(library.create_tag("b", None, None, Some(9), 10)), "父 Tag 不存在");
    assert_eq!(said(library.create_tag("b", Some(2), None, Some(1), 10)), "父 Tag 必须属于同一筛选维度");
    assert_eq!(said(library.create_tag("b", Some(9), None, None, 10)), "创建 Tag 失败: FOREIGN KEY constraint failed");
    assert_eq!(said(library.create_tag("A", Some(1), None, None, 10)), "创建 Tag 失败: UNIQUE constraint failed: index 'idx_tags_sibling_name'");
    library.catalog.tag_seq = i64::MAX;
    assert_eq!(said(library.create_tag("b", None, Some("more"), None, 10)), "创建 Tag 失败: database or disk is full");
    assert_eq!(library.catalog.categories.len(), 3, "the category stays");
    library.catalog.category_seq = i64::MAX;
    assert_eq!(said(library.create_tag("b", None, Some("most"), None, 10)), "创建 Tag 分类失败: database or disk is full");
}

#[test]
fn tags_are_renamed_and_moved_to_a_category() {
    let mut library = test_library();
    let a = library.create_tag("a", Some(1), None, None, 10).unwrap().id;
    let b = library.create_tag("b", None, None, Some(a), 10).unwrap().id;
    let c = library.create_tag("c", None, None, Some(b), 10).unwrap().id;
    library.update_tag(b, " B2 ", None, 11).unwrap();
    assert_eq!(library.catalog.path(c), "a / B2 / c");
    library.update_tag(b, "b3", Some("fresh"), 11).unwrap();
    assert_eq!(library.catalog.path(c), "b3 / c");
    let fresh = library.catalog.categories.iter().find(|k| k.name == "fresh").unwrap().id;
    assert!(library.catalog.tags.iter().filter(|t| t.id != a).all(|t| t.category_id == fresh));

    assert_eq!(said(library.update_tag(b, "", None, 11)), "Tag 名称不能为空");
    assert_eq!(said(library.update_tag(99, "n", None, 11)), "Tag 不存在");
    library.create_tag("d", Some(fresh), None, None, 10).unwrap();
    assert_eq!(said(library.update_tag(b, "D", None, 11)), "更新 Tag 失败: UNIQUE constraint failed: index 'idx_tags_sibling_name'");
    library.create_tag("b3", Some(1), None, None, 10).unwrap();
    assert_eq!(said(library.update_tag(b, "b3", Some("情绪"), 11)), "目标位置已有同名 Tag「b3」");
    assert_eq!(library.catalog.path(b), "b3");
}

#[test]
fn tags_go_and_their_children_rise() {
    let mut library = test_library();
    let a = library.create_tag("a", Some(1), None, None, 10).unwrap().id;
    let b = library.create_tag("b", None, None, Some(a), 10).unwrap().id;
    let c = library.create_tag("c", None, None, Some(b), 10).unwrap().id;
    let mut input = music("m1", "/1");
    input.tag_ids = Some(vec![b, c]);
    library.create_music(input, Vec::new(), 10).unwrap();
    library.set_album_tags("A", vec![b], Vec::new(), 10).unwrap();
    library.delete_tag(b).unwrap();
    assert_eq!(library.catalog.path(c), "a / c");
    assert_eq!(library.get_music("m1").unwrap().unwrap().tag_ids, vec![c]);
    assert!(library.album_tags.is_empty());
    assert_eq!(said(library.delete_tag(b)), "Tag 不存在");
    let twin = library.create_tag("c", Some(1), None, None, 10).unwrap().id;
    assert_ne!(twin, b, "an identifier is not given twice");
    assert_eq!(said(library.delete_tag(a)), "上移子 Tag 失败: UNIQUE constraint failed: index 'idx_tags_sibling_name'");
    library.move_tag(c, None, Some(2)).unwrap();
    library.delete_tag(a).unwrap();
    assert!(library.is_sound());
}

#[test]
fn tags_are_listed_with_paths_and_uses() {
    let mut library = test_library();
    library.create_tag_category("Zeta", 1).unwrap();
    library.create_tag_category("alpha", 1).unwrap();
    let z = library.create_tag("z", None, Some("zeta"), None, 10).unwrap().id;
    let b = library.create_tag("B", None, Some("Alpha"), None, 10).unwrap().id;
    let a = library.create_tag("a", None, Some("alpha"), None, 10).unwrap().id;
    let deep = library.create_tag("deep", None, None, Some(a), 10).unwrap().id;
    let loose = library.create_tag("loose", None, None, None, 10).unwrap().id;
    let mut input = music("m1", "/1");
    input.tag_ids = Some(vec![deep, z]);
    library.create_music(input, Vec::new(), 10).unwrap();
    let mut part = clip("c1", "m1", 0.0, 1.0);
    part.tag_ids = Some(vec![deep]);
    library.create_clip(part, 10).unwrap();
    library.set_album_tags("A", vec![deep], Vec::new(), 10).unwrap();
    library.set_album_tags("B", vec![deep], Vec::new(), 10).unwrap();

    let listed = library.list_tags();
    let ids: Vec<i64> = listed.iter().map(|t| t.id).collect();
    assert_eq!(ids, vec![a, deep, b, z, loose]);
    let found = &listed[1];
    assert_eq!((found.path.as_str(), found.category.as_str(), found.music_count), ("a / deep", "alpha", 4));
    assert_eq!((listed[4].category.as_str(), listed[4].music_count), ("", 0));
    assert_eq!(listed[3].music_count, 1);
}

#[test]
fn categories_are_kept_apart_by_name() {
    let mut library = test_library();
    library.create_tag_category(" Beat ", 1).unwrap();
    assert_eq!(said(library.create_tag_category("beat", 1)), "创建分类失败: UNIQUE constraint failed: tag_categories.name");
    assert_eq!(said(library.create_tag_category("  ", 1)), "分类名称不能为空");
    library.create_tag_category("amp", 1).unwrap();
    assert_eq!(library.list_tag_categories(), texts(&["amp", "Beat", "情绪"]));
    let records: Vec<(i64, String)> = library.list_tag_category_records().into_iter().map(|c| (c.id, c.name)).collect();
    assert_eq!(
        records,
        vec![(4, "amp".to_string()), (3, "Beat".to_string()), (1, "情绪".to_string()), (2, "未分类".to_string())]
    );

    assert_eq!(said(library.update_tag_category("", "x")), "分类名称不能为空");
    assert_eq!(said(library.update_tag_category("x", " ")), "分类名称不能为空");
    library.update_tag_category("BEAT", "beat ").unwrap();
    assert_eq!(library.catalog.categories[2].name, "Beat", "the same but for case");
    assert_eq!(said(library.update_tag_category("gone", "x")), "分类不存在");
    assert_eq!(said(library.update_tag_category("Beat", "AMP")), "更新筛选维度失败: UNIQUE constraint failed: tag_categories.name");
    library.update_tag_category("beat", " Tempo").unwrap();
    assert_eq!(library.catalog.categories[2].name, "Tempo");

    library.create_tag("t", None, Some("tempo"), None, 1).unwrap();
    assert_eq!(said(library.delete_tag_category("Tempo")), "非空筛选维度不能删除，请先移动或删除其中的 Tag");
    assert_eq!(said(library.delete_tag_category("gone")), "分类不存在");
    assert_eq!(said(library.delete_tag_category(" ")), "分类名称不能为空");
    library.delete_tag_category(" AMP ").unwrap();
    assert_eq!(library.list_tag_categories(), texts(&["Tempo", "情绪"]));
    library.catalog.category_seq = i64::MAX;
    assert_eq!(said(library.create_tag_category("x", 1)), "创建分类失败: database or disk is full");
}

#[test]
fn albums_carry_tags_by_name() {
    let mut library = test_library();
    let a = library.create_tag("a", Some(1), None, None, 10).unwrap().id;
    let ids = library.set_album_tags(" Blue ", vec![a], texts(&["New", "A"]), 10).unwrap();
    assert_eq!(ids, vec![a, a + 1]);
    library.set_album_tags("Amber", vec![a], Vec::new(), 10).unwrap();
    let listed: Vec<(String, Vec<i64>)> = library.list_album_tags().into_iter().map(|e| (e.album, e.tag_ids)).collect();
    assert_eq!(listed, vec![("Amber".to_string(), vec![a]), ("Blue".to_string(), vec![a, a + 1])]);
    assert_eq!(said(library.set_album_tags(" ", vec![a], Vec::new(), 10)), "专辑名不能为空");
    assert_eq!(said(library.set_album_tags("Blue", vec![a, 99], Vec::new(), 10)), "所选 Tag 不存在");
    assert_eq!(library.catalog.load_tag_ids(&library.album_tags, "Blue"), vec![a], "what was written stays");
    library.delete_album_tags("Blue ");
    assert_eq!(library.list_album_tags().len(), 2);
    library.delete_album_tags("Blue");
    library.set_album_tags("Amber", Vec::new(), Vec::new(), 10).unwrap();
    assert!(library.list_album_tags().is_empty());
}

fn located(path: &str, bookmark: Option<Vec<u8>>) -> Option<Located> {
    Some(locate(path.to_string(), bookmark))
}

#[test]
fn files_are_looked_for_by_bookmark_and_else_by_path() {
    let mut library = test_library();
    library.create_music(music("m1", "/A/1.mp3"), vec![7], 10).unwrap();
    library.create_music(music("m2", "/A/2.mp3"), Vec::new(), 10).unwrap();
    assert!(matches!(lookup(&library.music[0]), Lookup::Bookmark(b) if b == vec![7]));
    assert!(matches!(lookup(&library.music[1]), Lookup::Path(p) if p == "/A/2.mp3"));
    assert!(!needs_bookmark(&library.music[0], "/A/1.mp3"));
    assert!(needs_bookmark(&library.music[0], "/B/1.mp3"));
    assert!(needs_bookmark(&library.music[1], "/A/2.mp3"));
    let file = locate("/Music/New Album/song.mp3".to_string(), Some(vec![1]));
    assert_eq!((file.folder_album.as_str(), file.file_name.as_str()), ("New Album", "song.mp3"));
    let file = locate("/music/R.E.M./Live: 1.mp3".to_string(), None);
    assert_eq!((file.folder_album.as_str(), file.file_name.as_str()), ("R.E.M.", "Live: 1.mp3"));
    let file = locate("/song.mp3".to_string(), None);
    assert_eq!((file.folder_album.as_str(), file.file_name.as_str()), ("", "song.mp3"));
    let file = locate("/music/..".to_string(), None);
    assert_eq!((file.folder_album.as_str(), file.file_name.as_str()), ("music", ""));
}

#[test]
fn moved_files_are_followed_and_album_tags_with_them() {
    let mut library = test_library();
    let tag = library.create_tag("t", None, None, None, 1).unwrap().id;
    library.set_album_tags("A", vec![tag], Vec::new(), 1).unwrap();
    library.create_music(music("m1", "/A/1.mp3"), vec![1], 10).unwrap();
    library.create_music(music("m2", "/A/2.mp3"), vec![2], 10).unwrap();
    let mut chosen = music("m3", "/A/3.mp3");
    chosen.album_source = "manual".to_string();
    library.create_music(chosen, vec![3], 10).unwrap();
    let mut old = music("m4", "/A/4.mp3");
    old.album_source = "legacy".to_string();
    library.create_music(old, Vec::new(), 10).unwrap();
    library.create_music(music("m5", "/A/5.mp3"), vec![5], 10).unwrap();

    let found = vec![
        located("/B/one.mp3", Some(vec![11])),
        None,
        located("/B/3.mp3", None),
        located("/A/4.mp3", Some(vec![44])),
        located("/A/5.mp3", Some(vec![55])),
    ];
    let plan = plan_locations(&library.music, &found);
    assert_eq!(plan.updates.len(), 3);
    assert_eq!((plan.result.updated_paths, plan.result.updated_albums), (2, 1));
    assert_eq!(plan.renames.len(), 1);
    let result = library.sync_library_locations(plan, 50).unwrap();
    assert_eq!((result.updated_paths, result.updated_albums), (2, 1));

    let m1 = &library.music[0];
    assert_eq!((m1.path.as_str(), m1.file_name.as_str(), m1.album.as_str(), m1.updated_at), ("/B/one.mp3", "one.mp3", "B", 50));
    assert_eq!(m1.file_bookmark, Some(vec![11]));
    assert_eq!(library.music[1].updated_at, 6);
    let m3 = &library.music[2];
    assert_eq!((m3.path.as_str(), m3.album.as_str(), m3.album_source.as_str()), ("/B/3.mp3", "A", "manual"));
    assert_eq!(m3.file_bookmark, Some(vec![3]), "no bookmark could be made");
    let m4 = &library.music[3];
    assert_eq!((m4.album_source.as_str(), m4.file_bookmark.clone()), ("folder", Some(vec![44])));
    assert_eq!(library.music[4].updated_at, 6);
    assert_eq!(library.catalog.load_tag_ids(&library.album_tags, "B"), vec![tag]);
    assert!(library.catalog.load_tag_ids(&library.album_tags, "A").is_empty());

    let again = plan_locations(&library.music, &found);
    assert!(again.updates.is_empty() && again.renames.is_empty());
    assert!(library.is_sound());
}

#[test]
fn two_files_at_one_path_are_refused() {
    let mut library = test_library();
    library.create_music(music("m1", "/A/1.mp3"), vec![1], 10).unwrap();
    library.create_music(music("m2", "/A/2.mp3"), vec![2], 10).unwrap();
    let found = vec![located("/A/2.mp3", None), None];
    let plan = plan_locations(&library.music, &found);
    assert_eq!(said(library.sync_library_locations(plan, 50)), "写入同步位置失败: UNIQUE constraint failed: music.path");
    assert_eq!(library.music[0].path, "/A/1.mp3");
}

#[test]
fn an_album_is_renamed_to_where_its_last_music_went() {
    let mut library = test_library();
    for id in ["m1", "m2", "m3"] {
        library.create_music(music(id, &format!("/A/{id}.mp3")), vec![1], 10).unwrap();
    }
    let found = vec![located("/B/m1.mp3", None), located("/C/m2.mp3", None), located("/B/m3.mp3", None)];
    let plan = plan_locations(&library.music, &found);
    let renames: Vec<(&str, &str)> = plan.renames.iter().map(|r| (r.from.as_str(), r.to.as_str())).collect();
    assert_eq!(renames, vec![("A", "B")]);
    assert_eq!((plan.result.updated_paths, plan.result.updated_albums), (3, 3));
}

#[test]
fn tags_follow_several_albums_to_their_new_names() {
    let mut library = test_library();
    let ids: Vec<i64> = ["t1", "t2", "t3", "t4"].iter().map(|t| library.create_tag(t, None, None, None, 1).unwrap().id).collect();
    for (album, id, path) in [("A", ids[0], "/A/1.mp3"), ("B", ids[1], "/B/2.mp3"), ("C", ids[2], "/C/3.mp3"), ("D", ids[3], "/D/4.mp3")] {
        library.set_album_tags(album, vec![id], Vec::new(), 1).unwrap();
        let mut found = music(path, path);
        found.album = album.to_string();
        library.create_music(found, vec![1], 10).unwrap();
    }
    let found = vec![located("/B/1.mp3", None), located("/B/2.mp3", None), located("/B/3.mp3", None), None];
    let plan = plan_locations(&library.music, &found);
    let result = library.sync_library_locations(plan, 50).unwrap();
    assert_eq!((result.updated_paths, result.updated_albums), (2, 2));
    let carried = |album: &str| library.catalog.load_tag_ids(&library.album_tags, album);
    assert!(carried("A").is_empty() && carried("C").is_empty());
    let mut at_b = carried("B");
    at_b.sort();
    assert_eq!(at_b, vec![ids[0], ids[1], ids[2]]);
    assert_eq!(carried("D"), vec![ids[3]]);
    let again = plan_locations(&library.music, &found);
    assert_eq!((again.updates.len(), again.result.updated_paths, again.result.updated_albums), (0, 0, 0));
}

#[test]
fn tags_made_by_name_are_uncategorized() {
    let mut library = test_library();
    let mut first = music("m1", "/1");
    first.tags = texts(&["new", "NEW", "other"]);
    library.create_music(first, Vec::new(), 10).unwrap();
    let made: Vec<(&str, i64, Option<i64>)> = library.catalog.tags.iter().map(|t| (t.name.as_str(), t.category_id, t.parent_id)).collect();
    assert_eq!(made, vec![("new", 2, None), ("other", 2, None)]);
}

/// The rows of all tables but the catalog.
fn rows(library: &Library) -> Vec<String> {
    let mut all: Vec<String> = library.music.iter().map(|m| format!("music {} {}", m.id, m.path)).collect();
    all.extend(library.clips.iter().map(|c| format!("clip {} {}", c.id, c.music_id)));
    all.extend(library.candidates.iter().map(|c| format!("candidate {}", c.target_id)));
    for links in [&library.music_tags, &library.clip_tags, &library.album_tags] {
        all.extend(links.iter().map(|l| format!("link {} {}", l.owner, l.tag_id)));
    }
    all
}

#[test]
fn what_is_created_and_removed_leaves_the_tables_as_they_were() {
    let mut library = test_library();
    let mut first = music("m1", "/1");
    first.tags = texts(&["t"]);
    library.create_music(first, Vec::new(), 10).unwrap();
    library.create_clip(clip("c1", "m1", 0.0, 1.0), 10).unwrap();
    library.create_candidate("c1", "clip", 1).unwrap();
    library.set_album_tags("A", vec![1], Vec::new(), 1).unwrap();
    let before = rows(&library);

    let mut second = music("m2", "/2");
    second.tags = texts(&["t", "new"]);
    library.create_music(second, Vec::new(), 11).unwrap();
    assert_eq!(rows(&library).len(), before.len() + 3);
    library.delete_music("m2");
    assert_eq!(rows(&library), before);

    let mut part = clip("c2", "m1", 1.0, 2.0);
    part.tags = texts(&["new"]);
    library.create_clip(part, 12).unwrap();
    library.delete_clip("c2");
    assert_eq!(rows(&library), before);

    library.create_candidate("m1", "music", 2).unwrap();
    library.delete_candidate("m1");
    assert_eq!(rows(&library), before);
    assert_eq!(library.catalog.tags.len(), 2, "the tag made for the music stays");
}
