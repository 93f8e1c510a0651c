use music_manager::catalog::Catalog;
use music_manager::catalog::CategoryRow;
use music_manager::catalog::TagRow;
use music_manager::legacy::migrate_legacy_tag_tree;
use music_manager::legacy::LegacyCategory;
use music_manager::legacy::LegacyTag;
use music_manager::library::CandidateKind;
use music_manager::library::CandidateRow;
use music_manager::library::ClipRow;
use music_manager::library::Library;
use music_manager::library::MusicRow;
use music_manager::links::LinkRow;
use music_manager::messages::message;
use music_manager::messages::write_number;
use music_manager::migrate::read_names;
use music_manager::migrate::LegacyTables;
use music_manager::migrate::RawTags;
use music_manager::migrate::Tables;
use music_manager::schema::parse_number;
use music_manager::schema::SCHEMA_VERSION;
use music_manager::seconds::Seconds;
use music_manager::standard::tag_category;

fn seconds(x: f64) -> Seconds {
    Seconds { bits: x.to_bits() }
}

fn empty_library() -> Library {
    Library {
        catalog: Catalog { categories: Vec::new(), category_seq: 0, tags: Vec::new(), tag_seq: 0 },
        music: Vec::new(),
        duration_column: 13,
        clips: Vec::new(),
        candidates: Vec::new(),
        music_tags: Vec::new(),
        clip_tags: Vec::new(),
        album_tags: Vec::new(),
    }
}

fn fresh() -> Tables {
    Tables { schema: None, legacy: None, music_texts: None, clip_texts: None, library: empty_library() }
}

fn music(id: &str, path: &str, album_source: &str) -> MusicRow {
    MusicRow {
        id: id.to_string(),
        name: id.to_string(),
        file_name: String::new(),
        path: path.to_string(),
        album: String::new(),
        album_source: album_source.to_string(),
        artist: String::new(),
        genre: String::new(),
        year: String::new(),
        channels: String::new(),
        sample_rate: 0,
        bitrate: 0,
        duration: seconds(0.0),
        file_size: 0,
        mime_type: String::new(),
        cover_art: String::new(),
        created_at: 1,
        updated_at: 1,
        file_bookmark: None,
    }
}

fn clip(id: &str, music_id: &str) -> ClipRow {
    ClipRow {
        id: id.to_string(),
        music_id: music_id.to_string(),
        name: String::new(),
        start: seconds(0.0),
        end: seconds(1.0),
        created_at: 1,
        updated_at: 1,
    }
}

fn legacy_category(name: &str, created_at: i64) -> LegacyCategory {
    LegacyCategory { name: name.to_string(), created_at }
}

fn legacy_tag(id: i64, name: &str, category: &str, created_at: i64) -> LegacyTag {
    LegacyTag { id, name: name.to_string(), category: category.to_string(), created_at }
}

fn category_of(catalog: &Catalog, id: i64) -> String {
    let tag = catalog.tags.iter().find(|t| t.id == id).unwrap();
    catalog.categories.iter().find(|c| c.id == tag.category_id).unwrap().name.clone()
}

fn tag_count(catalog: &Catalog, name: &str) -> usize {
    catalog.tags.iter().filter(|t| t.name.eq_ignore_ascii_case(name)).count()
}

fn add_tag(catalog: &mut Catalog, name: &str, category: &str) -> i64 {
    let id = catalog.categories.iter().find(|c| c.name == category).unwrap().id;
    catalog.push_tag(name, id, None, 0)
}

fn raw(owner: &str, text: &str) -> RawTags {
    RawTags { owner: owner.to_string(), text: text.to_string() }
}

#[test]
fn migrates_legacy_tag_schema_and_preserves_ids() {
    let mut tables = fresh();
    tables.legacy = Some(LegacyTables {
        categories: vec![legacy_category("情绪", 1), legacy_category("", 2)],
        tags: vec![legacy_tag(42, "温暖", "情绪", 3), legacy_tag(77, "自建", "", 4)],
    });
    assert!(tables.is_sound());

    tables.migrate(100).unwrap();

    assert!(tables.legacy.is_none());
    let mut rows: Vec<(i64, String)> = tables.library.catalog.tags.iter()
        .filter(|t| t.id == 42 || t.id == 77)
        .map(|t| (t.id, category_of(&tables.library.catalog, t.id)))
        .collect();
    rows.sort();
    assert_eq!(rows, vec![(42, "情绪".to_string()), (77, "未分类".to_string())]);
    assert_eq!(tables.schema, Some(SCHEMA_VERSION.to_string()));
    assert!(tables.library.is_sound());
}

#[test]
fn legacy_tag_migration_preserves_join_rows() {
    let mut tables = fresh();
    tables.library.music.push(music("m1", "/m1", "folder"));
    tables.library.clips.push(clip("c1", "m1"));
    tables.library.music_tags.push(LinkRow { owner: "m1".to_string(), tag_id: 42 });
    tables.library.clip_tags.push(LinkRow { owner: "c1".to_string(), tag_id: 42 });
    tables.legacy = Some(LegacyTables {
        categories: vec![legacy_category("情绪", 1)],
        tags: vec![legacy_tag(42, "温暖", "情绪", 2)],
    });

    tables.migrate(100).unwrap();

    let music_tag = tables.library.music_tags.iter().find(|l| l.owner == "m1").unwrap().tag_id;
    let clip_tag = tables.library.clip_tags.iter().find(|l| l.owner == "c1").unwrap().tag_id;
    assert_eq!((music_tag, clip_tag), (42, 42));
}

#[test]
fn newer_schema_is_rejected() {
    let mut tables = fresh();
    tables.migrate(100).unwrap();
    tables.schema = Some("999".to_string());
    let error = message(&tables.migrate(101).unwrap_err());
    assert!(error.contains("高于当前程序支持"));
    assert_eq!(error, "数据库版本 999 高于当前程序支持的版本 3，已停止写入");
}

#[test]
fn migrate_creates_album_tags_table() {
    let mut tables = fresh();
    tables.migrate(100).unwrap();
    assert!(tables.library.album_tags.is_empty(), "迁移后应存在 album_tags 表");
    tables.migrate(101).unwrap();
}

#[test]
fn same_name_tags_in_different_categories_are_preserved() {
    let mut tables = fresh();
    tables.migrate(100).unwrap();
    add_tag(&mut tables.library.catalog, "现场", "情绪");
    add_tag(&mut tables.library.catalog, "现场", "未分类");
    tables.migrate(101).unwrap();
    assert_eq!(tag_count(&tables.library.catalog, "现场"), 2);
}

#[test]
fn a_fresh_library_is_seeded_once() {
    let mut tables = fresh();
    tables.migrate(100).unwrap();
    let names: Vec<&str> = tables.library.catalog.categories.iter().map(|c| c.name.as_str()).collect();
    assert_eq!(names, vec!["情绪", "节奏", "用途", "人声", "风格", "结构", "未分类"]);
    assert_eq!(tables.library.catalog.tags.len(), 28);
    for tag in &tables.library.catalog.tags {
        assert_eq!(category_of(&tables.library.catalog, tag.id), tag_category(&tag.name));
    }
    tables.migrate(200).unwrap();
    assert_eq!(tables.library.catalog.tags.len(), 28);
    assert!(tables.library.catalog.tags.iter().all(|t| t.created_at == 100));
}

#[test]
fn seeding_leaves_a_library_with_tags_alone() {
    let mut tables = fresh();
    tables.library.catalog.categories.push(CategoryRow { id: 1, name: "x".to_string(), created_at: 1 });
    tables.library.catalog.category_seq = 1;
    tables.library.catalog.tags.push(TagRow { id: 1, name: "y".to_string(), category_id: 1, parent_id: None, created_at: 1 });
    tables.library.catalog.tag_seq = 1;
    tables.migrate(100).unwrap();
    assert_eq!(tables.library.catalog.categories.len(), 1);
    assert_eq!(tables.library.catalog.tags.len(), 1);
}

#[test]
fn seeding_reports_that_identifiers_ran_out() {
    let mut tables = fresh();
    tables.library.catalog.category_seq = i64::MAX - 1;
    let error = message(&tables.migrate(100).unwrap_err());
    assert_eq!(error, "初始化 Tag 分类失败: database or disk is full");
    assert_eq!(tables.library.catalog.categories.len(), 1, "what was added stays");
    assert_eq!(tables.schema, None);

    let mut tables = fresh();
    tables.library.catalog.tag_seq = i64::MAX - 2;
    let error = message(&tables.migrate(100).unwrap_err());
    assert_eq!(error, "初始化预设 Tag 失败: database or disk is full");
    assert_eq!(tables.library.catalog.tags.len(), 2);
}

#[test]
fn legacy_categories_are_merged_and_ordered() {
    let categories = vec![
        legacy_category("自定义", 9),
        legacy_category("b", 5),
        legacy_category("", 4),
        legacy_category("a", 6),
    ];
    let tags = vec![legacy_tag(3, "x", "b", 1), legacy_tag(5, "y", "新", 2), legacy_tag(4, "z", "自定义", 3)];
    let catalog = migrate_legacy_tag_tree(&categories, &tags).unwrap();
    let rows: Vec<(i64, &str, i64)> = catalog.categories.iter().map(|c| (c.id, c.name.as_str(), c.created_at)).collect();
    assert_eq!(rows, vec![(1, "a", 6), (2, "b", 5), (3, "未分类", 4), (5, "新", 2)]);
    assert_eq!(catalog.tag_seq, 5);
    assert_eq!(category_of(&catalog, 3), "b");
    assert_eq!(category_of(&catalog, 5), "新");
    assert_eq!(category_of(&catalog, 4), "未分类");
    assert!(catalog.tags.iter().all(|t| t.parent_id.is_none()));
}

#[test]
fn legacy_tags_keep_the_writing_of_their_category() {
    let tags = vec![legacy_tag(1, "x", "mood", 1), legacy_tag(2, "y", "Era", 2), legacy_tag(3, "z", "情绪", 3)];
    let catalog = migrate_legacy_tag_tree(&vec![legacy_category("Mood", 1)], &tags).unwrap();
    assert_eq!(category_of(&catalog, 1), "Mood");
    assert_eq!(category_of(&catalog, 2), "Era");
    assert_eq!(category_of(&catalog, 3), "情绪");
}

#[test]
fn legacy_rows_that_clash_are_refused() {
    let clash = migrate_legacy_tag_tree(&vec![legacy_category("A", 1), legacy_category("a", 2)], &Vec::new());
    assert_eq!(message(&clash.err().unwrap()), "迁移 Tag 维度失败: UNIQUE constraint failed: tag_categories_v2.name");
    let twice = vec![legacy_tag(1, "x", "c", 1), legacy_tag(1, "y", "c", 1)];
    let error = migrate_legacy_tag_tree(&Vec::new(), &twice).err().unwrap();
    assert_eq!(message(&error), "迁移 Tag 节点失败: UNIQUE constraint failed: tags_v2.id");
    let same = vec![legacy_tag(1, "x", "c", 1), legacy_tag(2, "X", "C", 1)];
    let error = migrate_legacy_tag_tree(&Vec::new(), &same).err().unwrap();
    assert_eq!(message(&error), "切换新版 Tag 表失败: UNIQUE constraint failed: index 'idx_tags_sibling_name'");
}

#[test]
fn dangling_links_stop_the_migration_of_legacy_tags() {
    let mut tables = fresh();
    tables.library.album_tags.push(LinkRow { owner: "A".to_string(), tag_id: 5 });
    tables.legacy = Some(LegacyTables { categories: Vec::new(), tags: vec![legacy_tag(1, "x", "c", 1)] });
    assert!(tables.is_sound());
    let error = message(&tables.migrate(100).unwrap_err());
    assert_eq!(error, "Tag 迁移后的外键校验失败");
    assert!(tables.legacy.is_some());
    assert!(tables.library.catalog.tags.is_empty());
}

#[test]
fn tags_in_texts_become_links() {
    let mut tables = fresh();
    tables.library.music.push(music("m1", "/1", "folder"));
    tables.library.music.push(music("m2", "/2", "folder"));
    tables.library.clips.push(clip("c1", "m1"));
    tables.music_texts = Some(vec![
        raw("m1", "[\"温暖\", \"  mine \", \"\", \"MINE\"]"),
        raw("m2", "not json"),
    ]);
    tables.clip_texts = Some(vec![raw("c1", "[\"Mine\"]")]);
    assert!(tables.is_sound());
    tables.migrate(100).unwrap();
    assert!(tables.music_texts.is_none() && tables.clip_texts.is_none());
    let catalog = &tables.library.catalog;
    assert_eq!(catalog.tags.len(), 2, "no standard tags where there are tags");
    let warm = catalog.tags.iter().find(|t| t.name == "温暖").unwrap().id;
    let mine = catalog.tags.iter().find(|t| t.name == "mine").unwrap().id;
    assert_eq!(category_of(catalog, warm), "情绪");
    assert_eq!(category_of(catalog, mine), "未分类");
    let links: Vec<(&str, i64)> = tables.library.music_tags.iter().map(|l| (l.owner.as_str(), l.tag_id)).collect();
    assert_eq!(links, vec![("m1", warm), ("m1", mine)]);
    let links: Vec<(&str, i64)> = tables.library.clip_tags.iter().map(|l| (l.owner.as_str(), l.tag_id)).collect();
    assert_eq!(links, vec![("c1", mine)]);
}

#[test]
fn texts_report_that_identifiers_ran_out() {
    let mut tables = fresh();
    tables.library.music.push(music("m1", "/1", "folder"));
    tables.music_texts = Some(vec![raw("m1", "[\"x\"]")]);
    tables.library.catalog.tag_seq = i64::MAX;
    assert_eq!(message(&tables.migrate(100).unwrap_err()), "迁移 Tag 失败: database or disk is full");
    assert!(tables.library.catalog.categories.is_empty(), "the whole stage is undone");
    tables.library.catalog.tag_seq = 0;
    tables.library.catalog.category_seq = i64::MAX;
    assert_eq!(message(&tables.migrate(100).unwrap_err()), "创建 Tag 维度失败: database or disk is full");
}

#[test]
fn names_are_read_from_json() {
    assert_eq!(read_names("[\"a\",\"b\\u0041\"]"), vec!["a".to_string(), "bA".to_string()]);
    assert_eq!(read_names("[1]"), Vec::<String>::new());
    assert_eq!(read_names("{"), Vec::<String>::new());
    assert_eq!(read_names(" [ ] "), Vec::<String>::new());
}

#[test]
fn album_sources_are_settled() {
    let mut tables = fresh();
    tables.library.music.push(music("a", "/a", ""));
    tables.library.music.push(music("b", "/b", "legacy"));
    tables.library.music.push(music("c", "/c", "manual"));
    tables.migrate(100).unwrap();
    let sources: Vec<&str> = tables.library.music.iter().map(|m| m.album_source.as_str()).collect();
    assert_eq!(sources, vec!["folder", "folder", "manual"]);
}

#[test]
fn one_path_for_two_music_is_refused() {
    let mut tables = fresh();
    tables.library.music.push(music("a", "/same", ""));
    tables.library.music.push(music("b", "/same", ""));
    assert!(tables.is_sound());
    assert!(!tables.library.is_sound());
    let error = message(&tables.migrate(100).unwrap_err());
    assert_eq!(error, "建立音乐路径唯一索引失败: UNIQUE constraint failed: music.path");
    assert!(tables.library.music.iter().all(|m| m.album_source == "folder"));
}

#[test]
fn one_place_for_two_tags_is_refused() {
    let mut tables = fresh();
    tables.library.catalog.categories.push(CategoryRow { id: 1, name: "c".to_string(), created_at: 1 });
    tables.library.catalog.category_seq = 1;
    for id in 1..3 {
        tables.library.catalog.tags.push(TagRow { id, name: "y".to_string(), category_id: 1, parent_id: None, created_at: 1 });
    }
    tables.library.catalog.tag_seq = 2;
    assert!(tables.is_sound());
    let error = message(&tables.migrate(100).unwrap_err());
    assert_eq!(error, "建立 Tag 树索引失败: UNIQUE constraint failed: index 'idx_tags_sibling_name'");
}

#[test]
fn recorded_schema_is_read_as_a_number() {
    assert_eq!(parse_number("3"), Some(3));
    assert_eq!(parse_number("+12"), Some(12));
    assert_eq!(parse_number("-0"), Some(0));
    assert_eq!(parse_number(""), None);
    assert_eq!(parse_number("-"), None);
    assert_eq!(parse_number(" 3"), None);
    assert_eq!(parse_number("3x"), None);
    assert_eq!(parse_number("9223372036854775807"), Some(i64::MAX));
    assert_eq!(parse_number("9223372036854775808"), None);
    assert_eq!(parse_number("-9223372036854775808"), Some(i64::MIN));
    assert_eq!(parse_number("-9223372036854775809"), None);
    assert_eq!(parse_number("99999999999999999999999999999"), None);
    for n in [0i64, 7, 10, -1, 905, i64::MAX, i64::MIN] {
        assert_eq!(write_number(n), n.to_string());
        assert_eq!(parse_number(&write_number(n)), Some(n));
    }
}

#[test]
fn a_schema_that_is_no_number_or_not_later_is_accepted() {
    for schema in ["x", "3", "2", "-5", "99999999999999999999"] {
        let mut tables = fresh();
        tables.schema = Some(schema.to_string());
        assert!(tables.migrate(1).is_ok());
        assert_eq!(tables.schema, Some("3".to_string()));
    }
    let mut tables = fresh();
    tables.schema = Some("4".to_string());
    assert!(tables.migrate(1).is_err());
    assert!(tables.library.catalog.tags.is_empty());
}

#[test]
fn unsound_tables_are_told() {
    let mut library = empty_library();
    assert!(library.is_sound());
    library.candidates.push(CandidateRow { target_id: "x".to_string(), kind: CandidateKind::Clip, created_at: 1 });
    assert!(library.is_sound(), "a candidate need not exist");
    library.candidates.push(CandidateRow { target_id: "x".to_string(), kind: CandidateKind::Music, created_at: 2 });
    assert!(!library.is_sound());
    library.candidates.clear();

    library.clips.push(clip("c", "gone"));
    assert!(!library.is_sound());
    library.music.push(music("gone", "/", ""));
    assert!(library.is_sound());
    library.clips[0].end = seconds(0.0);
    assert!(!library.is_sound());
    library.clips.clear();

    library.catalog.categories.push(CategoryRow { id: 1, name: "c".to_string(), created_at: 1 });
    library.catalog.category_seq = 1;
    library.catalog.tag_seq = 3;
    for (id, parent) in [(1, Some(2)), (2, Some(3)), (3, None)] {
        library.catalog.tags.push(TagRow { id, name: "t".to_string(), category_id: 1, parent_id: parent, created_at: 1 });
    }
    assert!(library.is_sound());
    library.catalog.tags[2].parent_id = Some(1);
    assert!(!library.is_sound(), "tags above themselves");
    library.catalog.tags[2].parent_id = Some(9);
    assert!(!library.is_sound());
    library.catalog.tags[2].parent_id = None;
    library.album_tags.push(LinkRow { owner: "A".to_string(), tag_id: 3 });
    assert!(library.is_sound());
    library.album_tags.push(LinkRow { owner: "A".to_string(), tag_id: 3 });
    assert!(!library.is_sound());
}
