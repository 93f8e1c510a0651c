//! The library against the database that keeps it: what both do with the same rows.
use music_manager::catalog::Catalog;
use music_manager::catalog::CategoryRow;
use music_manager::catalog::TagRow;
use music_manager::legacy::migrate_legacy_tag_tree;
use music_manager::legacy::LegacyCategory;
use music_manager::legacy::LegacyTag;
use music_manager::library::CandidateKind;
use music_manager::library::CandidateRow;
use music_manager::library::ClipRow;
use music_manager::library::Library;
use music_manager::library::MusicInput;
use music_manager::library::MusicRow;
use music_manager::links::LinkRow;
use music_manager::messages::message;
use music_manager::seconds::Seconds;
use music_manager::text::name_key;
use music_manager::text::not_after;
use music_manager::text::same_nocase;
use rusqlite::Connection;

const TABLES: &str = "
    PRAGMA foreign_keys=ON;
    CREATE TABLE music (id TEXT PRIMARY KEY, path TEXT NOT NULL, cover_art TEXT DEFAULT '', created_at INTEGER NOT NULL);
    CREATE TABLE clips (id TEXT PRIMARY KEY, music_id TEXT NOT NULL REFERENCES music(id) ON DELETE CASCADE, start REAL NOT NULL, created_at INTEGER NOT NULL);
    CREATE INDEX idx_clips_music ON clips(music_id);
    CREATE TABLE candidate_entries (target_id TEXT PRIMARY KEY, kind TEXT NOT NULL, created_at INTEGER NOT NULL);
    CREATE TABLE tag_categories (id INTEGER PRIMARY KEY AUTOINCREMENT, name TEXT NOT NULL UNIQUE COLLATE NOCASE, created_at INTEGER NOT NULL);
    CREATE TABLE tags (id INTEGER PRIMARY KEY AUTOINCREMENT, name TEXT NOT NULL COLLATE NOCASE, category_id INTEGER NOT NULL REFERENCES tag_categories(id) ON DELETE RESTRICT, parent_id INTEGER REFERENCES tags(id) ON DELETE RESTRICT, created_at INTEGER NOT NULL);
    CREATE UNIQUE INDEX idx_tags_sibling_name ON tags(category_id, COALESCE(parent_id, -1), name COLLATE NOCASE);
    CREATE TABLE music_tags (music_id TEXT NOT NULL REFERENCES music(id) ON DELETE CASCADE, tag_id INTEGER NOT NULL REFERENCES tags(id) ON DELETE CASCADE, PRIMARY KEY (music_id, tag_id));
    CREATE TABLE clip_tags (clip_id TEXT NOT NULL REFERENCES clips(id) ON DELETE CASCADE, tag_id INTEGER NOT NULL REFERENCES tags(id) ON DELETE CASCADE, PRIMARY KEY (clip_id, tag_id));
    CREATE TABLE album_tags (album TEXT NOT NULL, tag_id INTEGER NOT NULL REFERENCES tags(id) ON DELETE CASCADE, PRIMARY KEY (album, tag_id));
    CREATE TRIGGER trg_music AFTER DELETE ON music BEGIN DELETE FROM candidate_entries WHERE kind = 'music' AND target_id = OLD.id; END;
    CREATE TRIGGER trg_clips AFTER DELETE ON clips BEGIN DELETE FROM candidate_entries WHERE kind = 'clip' AND target_id = OLD.id; END;
    CREATE UNIQUE INDEX idx_music_path ON music(path);
";

fn music(id: &str, path: &str) -> MusicRow {
    MusicRow {
        id: id.to_string(),
        name: String::new(),
        file_name: String::new(),
        path: path.to_string(),
        album: String::new(),
        album_source: "folder".to_string(),
        artist: String::new(),
        genre: String::new(),
        year: String::new(),
        channels: String::new(),
        sample_rate: 0,
        bitrate: 0,
        duration: Seconds { bits: 0 },
        file_size: 0,
        mime_type: String::new(),
        cover_art: String::new(),
        created_at: 0,
        updated_at: 0,
        file_bookmark: None,
    }
}

fn input(id: &str, path: &str) -> MusicInput {
    MusicInput {
        id: id.to_string(),
        name: String::new(),
        file_name: String::new(),
        path: path.to_string(),
        album: String::new(),
        album_source: "folder".to_string(),
        artist: String::new(),
        genre: String::new(),
        year: String::new(),
        channels: String::new(),
        sample_rate: 0,
        bitrate: 0,
        duration: Seconds { bits: 0 },
        file_size: 0,
        mime_type: String::new(),
        cover_art: String::new(),
        created_at: 0,
        updated_at: 0,
        tags: Vec::new(),
        tag_ids: None,
        new_tags: Vec::new(),
    }
}

fn clip(id: &str, music_id: &str) -> ClipRow {
    ClipRow {
        id: id.to_string(),
        music_id: music_id.to_string(),
        name: String::new(),
        start: Seconds { bits: 0 },
        end: Seconds { bits: 1.0f64.to_bits() },
        created_at: 0,
        updated_at: 0,
    }
}

fn link(owner: &str, tag_id: i64) -> LinkRow {
    LinkRow { owner: owner.to_string(), tag_id }
}

fn category(id: i64, name: &str) -> CategoryRow {
    CategoryRow { id, name: name.to_string(), created_at: 0 }
}

fn tag(id: i64, name: &str, category_id: i64, parent_id: Option<i64>) -> TagRow {
    TagRow { id, name: name.to_string(), category_id, parent_id, created_at: 0 }
}

/// A library with everything in it, and a database that holds the same.
fn both() -> (Library, Connection) {
    let library = Library {
        catalog: Catalog {
            categories: vec![category(1, "Zeta"), category(2, "alpha"), category(3, "未分类")],
            category_seq: 3,
            tags: vec![
                tag(1, "Root", 1, None),
                tag(2, "leaf", 1, Some(1)),
                tag(3, "b", 2, None),
                tag(4, "A", 2, None),
                tag(5, "deep", 2, Some(4)),
                tag(6, "LEAF", 3, None),
                tag(7, "leaf", 2, Some(3)),
            ],
            tag_seq: 7,
        },
        music: vec![music("m3", "/3"), music("m1", "/1"), music("m2", "/2")],
        duration_column: 13,
        clips: vec![clip("c1", "m1"), clip("c2", "m2"), clip("m3", "m1")],
        candidates: vec![
            CandidateRow { target_id: "m1".to_string(), kind: CandidateKind::Music, created_at: 3 },
            CandidateRow { target_id: "c1".to_string(), kind: CandidateKind::Clip, created_at: 2 },
            CandidateRow { target_id: "m3".to_string(), kind: CandidateKind::Music, created_at: 1 },
            CandidateRow { target_id: "c2".to_string(), kind: CandidateKind::Clip, created_at: 4 },
        ],
        music_tags: vec![link("m1", 1), link("m2", 2), link("m2", 5)],
        clip_tags: vec![link("c1", 2), link("c2", 5), link("m3", 5)],
        album_tags: vec![link("album", 2), link("album", 5), link("other", 2)],
    };
    let conn = Connection::open_in_memory().unwrap();
    conn.execute_batch(TABLES).unwrap();
    for c in &library.catalog.categories {
        conn.execute("INSERT INTO tag_categories VALUES (?1, ?2, 0)", (c.id, &c.name)).unwrap();
    }
    for t in &library.catalog.tags {
        conn.execute("INSERT INTO tags VALUES (?1, ?2, ?3, ?4, 0)", (t.id, &t.name, t.category_id, t.parent_id)).unwrap();
    }
    for m in &library.music {
        conn.execute("INSERT INTO music VALUES (?1, ?2, '', 0)", (&m.id, &m.path)).unwrap();
    }
    for c in &library.clips {
        conn.execute("INSERT INTO clips VALUES (?1, ?2, 0, 0)", (&c.id, &c.music_id)).unwrap();
    }
    for c in &library.candidates {
        conn.execute("INSERT INTO candidate_entries VALUES (?1, ?2, ?3)", (&c.target_id, c.kind.name(), c.created_at)).unwrap();
    }
    for (table, links) in [("music_tags", &library.music_tags), ("clip_tags", &library.clip_tags), ("album_tags", &library.album_tags)] {
        for l in links.iter() {
            conn.execute(&format!("INSERT INTO {table} VALUES (?1, ?2)"), (&l.owner, l.tag_id)).unwrap();
        }
    }
    assert!(library.is_sound());
    (library, conn)
}

fn texts(conn: &Connection, sql: &str) -> Vec<String> {
    let mut stmt = conn.prepare(sql).unwrap();
    let found = stmt.query_map([], |row| row.get(0)).unwrap().collect::<Result<Vec<String>, _>>().unwrap();
    found
}

fn sorted(mut items: Vec<String>) -> Vec<String> {
    items.sort();
    items
}

/// Asserts that the database holds the rows of the library.
fn assert_same(library: &Library, conn: &Connection) {
    let ids: Vec<String> = library.music.iter().map(|m| m.id.clone()).collect();
    assert_eq!(sorted(ids), sorted(texts(conn, "SELECT id FROM music")));
    let ids: Vec<String> = library.clips.iter().map(|c| c.id.clone()).collect();
    assert_eq!(sorted(ids), sorted(texts(conn, "SELECT id FROM clips")));
    let ids: Vec<String> = library.candidates.iter().map(|c| format!("{} {}", c.kind.name(), c.target_id)).collect();
    assert_eq!(sorted(ids), sorted(texts(conn, "SELECT kind || ' ' || target_id FROM candidate_entries")));
    let tags: Vec<String> = library
        .catalog
        .tags
        .iter()
        .map(|t| format!("{} {} {} {}", t.id, t.name, t.category_id, t.parent_id.unwrap_or(0)))
        .collect();
    let sql = "SELECT id || ' ' || name || ' ' || category_id || ' ' || COALESCE(parent_id, 0) FROM tags";
    assert_eq!(sorted(tags), sorted(texts(conn, sql)));
    for (table, owner, links) in [
        ("music_tags", "music_id", &library.music_tags),
        ("clip_tags", "clip_id", &library.clip_tags),
        ("album_tags", "album", &library.album_tags),
    ] {
        let found: Vec<String> = links.iter().map(|l| format!("{} {}", l.owner, l.tag_id)).collect();
        assert_eq!(sorted(found), sorted(texts(conn, &format!("SELECT {owner} || ' ' || tag_id FROM {table}"))));
    }
}

#[test]
fn names_are_equal_and_ordered_as_in_the_database() {
    let conn = Connection::open_in_memory().unwrap();
    let names = ["", "a", "A", "ab", "AB", "b", "[", "_", "`", "{", "Z", "z", "é", "É", "温暖", "情绪", "a b", "a-b", "😀", "\u{ffff}", "a\0", "A\0b", "a\0c", "a\0é", "a\0bc", "\0", "\0\0", "a\0温", "a\0x\0"];
    for x in names {
        for y in names {
            let equal: bool = conn.query_row("SELECT ?1 = ?2 COLLATE NOCASE", (x, y), |row| row.get(0)).unwrap();
            assert_eq!(same_nocase(x, y), equal, "{x} {y}");
            let ordered: bool = conn.query_row("SELECT ?1 <= ?2 COLLATE NOCASE", (x, y), |row| row.get(0)).unwrap();
            assert_eq!(not_after(name_key(x).as_str(), name_key(y).as_str()), ordered, "{x} {y}");
        }
    }
}

#[test]
fn removals_reach_as_far_as_in_the_database() {
    for id in ["m1", "m2", "m3", "gone"] {
        let (mut library, conn) = both();
        library.delete_music(id);
        conn.execute("DELETE FROM music WHERE id=?1", [id]).unwrap();
        assert_same(&library, &conn);
    }
    for id in ["c1", "c2", "m3", "gone"] {
        let (mut library, conn) = both();
        library.delete_clip(id);
        conn.execute("DELETE FROM clips WHERE id=?1", [id]).unwrap();
        assert_same(&library, &conn);
    }
    for id in 1..8 {
        let (mut library, conn) = both();
        let parent: Option<i64> = conn.query_row("SELECT parent_id FROM tags WHERE id=?1", [id], |row| row.get(0)).unwrap();
        let lifted = conn.execute("UPDATE tags SET parent_id=?1 WHERE parent_id=?2", (parent, id));
        match library.delete_tag(id) {
            Ok(()) => {
                assert!(lifted.is_ok());
                conn.execute("DELETE FROM tags WHERE id=?1", [id]).unwrap();
            }
            Err(e) => assert_eq!(message(&e), format!("上移子 Tag 失败: {}", lifted.unwrap_err())),
        }
        assert_same(&library, &conn);
    }
}

#[test]
fn clashes_are_named_as_in_the_database() {
    for (id, path) in [("m1", "/new"), ("new", "/1"), ("m1", "/1"), ("m1", "/2")] {
        let (mut library, conn) = both();
        let refused = conn.execute("INSERT INTO music VALUES (?1, ?2, '', 0)", (id, path)).unwrap_err();
        let error = library.create_music(input(id, path), Vec::new(), 1).unwrap_err();
        assert_eq!(message(&error), format!("插入音乐失败: {refused}"));
    }
    let (mut library, conn) = both();
    let refused = conn.execute("INSERT INTO tag_categories (name, created_at) VALUES ('ALPHA', 0)", []).unwrap_err();
    let error = library.create_tag_category("ALPHA", 1).unwrap_err();
    assert_eq!(message(&error), format!("创建分类失败: {refused}"));
    let refused = conn.execute("INSERT INTO tags (name, category_id, created_at) VALUES ('a', 2, 0)", []).unwrap_err();
    let error = library.create_tag("a", Some(2), None, None, 1).err().unwrap();
    assert_eq!(message(&error), format!("创建 Tag 失败: {refused}"));
    let refused = conn.execute("INSERT INTO tags (name, category_id, created_at) VALUES ('a', 9, 0)", []).unwrap_err();
    let error = library.create_tag("a", Some(9), None, None, 1).err().unwrap();
    assert_eq!(message(&error), format!("创建 Tag 失败: {refused}"));
}

#[test]
fn names_stand_for_the_tags_that_the_database_chooses() {
    let sql = "SELECT t.id FROM tags t JOIN tag_categories c ON c.id=t.category_id
               WHERE t.name=?1 COLLATE NOCASE ORDER BY c.name='未分类', t.parent_id IS NOT NULL, t.id LIMIT 1";
    for name in ["leaf", "LEAF", "root", "B", "a", "deep"] {
        let (mut library, conn) = both();
        let chosen: i64 = conn.query_row(sql, [name], |row| row.get(0)).unwrap();
        let mut wish = input("m1", "/1");
        wish.tags = vec![name.to_string()];
        library.update_music(wish, Vec::new(), 1).unwrap();
        assert_eq!(library.get_music("m1").unwrap().unwrap().tag_ids, vec![chosen], "{name}");
    }
}

#[test]
fn lists_are_ordered_as_in_the_database() {
    let (library, conn) = both();
    let sql = "WITH RECURSIVE tree(id, path) AS (SELECT t.id, t.name FROM tags t WHERE t.parent_id IS NULL UNION ALL SELECT t.id, tree.path || ' / ' || t.name FROM tags t JOIN tree ON t.parent_id=tree.id)
         SELECT t.id || '|' || tree.path || '|' || CASE WHEN c.name='未分类' THEN '' ELSE c.name END || '|' || (COUNT(DISTINCT mt.music_id) + COUNT(DISTINCT ct.clip_id) + COUNT(DISTINCT at.album))
         FROM tags t LEFT JOIN music_tags mt ON mt.tag_id = t.id LEFT JOIN clip_tags ct ON ct.tag_id = t.id LEFT JOIN album_tags at ON at.tag_id = t.id
         JOIN tag_categories c ON c.id=t.category_id JOIN tree ON tree.id=t.id
         GROUP BY t.id, t.name, t.category_id, c.name, t.parent_id, tree.path
         ORDER BY c.name COLLATE NOCASE, tree.path COLLATE NOCASE";
    let listed: Vec<String> = library
        .list_tags()
        .into_iter()
        .map(|t| format!("{}|{}|{}|{}", t.id, t.path, t.category, t.music_count))
        .collect();
    assert_eq!(listed, texts(&conn, sql));
    let names: Vec<String> = library.list_tag_category_records().into_iter().map(|c| c.name).collect();
    assert_eq!(names, texts(&conn, "SELECT name FROM tag_categories ORDER BY name COLLATE NOCASE"));
    let tags = texts(&conn, "SELECT t.name FROM tags t JOIN music_tags j ON j.tag_id=t.id WHERE j.music_id='m2' ORDER BY t.name COLLATE NOCASE, t.id");
    assert_eq!(library.get_music("m2").unwrap().unwrap().tags, tags);
    let paths = vec!["/3".to_string(), "/9".to_string(), "/1".to_string(), "/3".to_string()];
    assert_eq!(library.find_existing_music_paths(paths), texts(&conn, "SELECT path FROM music WHERE path IN ('/3', '/9', '/1', '/3')"));
    let ids = vec!["m3".to_string(), "m1".to_string()];
    let covers: Vec<String> = library.get_music_cover_arts(ids).into_iter().map(|c| c.id).collect();
    assert_eq!(covers, texts(&conn, "SELECT id FROM (SELECT id, cover_art FROM music WHERE id IN ('m3', 'm1'))"));
    let picked: Vec<String> = library.list_candidates().into_iter().map(|c| c.target_id).collect();
    assert_eq!(picked, texts(&conn, "SELECT target_id FROM candidate_entries ORDER BY created_at ASC"));
}

#[test]
fn tags_move_as_in_the_database() {
    let (_, first) = both();
    let ids = texts(&first, "SELECT id || '' FROM tags");
    for id in ids.iter().map(|i| i.parse::<i64>().unwrap()) {
        for target in 1..4i64 {
            let (mut library, mut conn) = both();
            let tx = conn.transaction().unwrap();
            let current: i64 = tx.query_row("SELECT category_id FROM tags WHERE id=?1", [id], |row| row.get(0)).unwrap();
            let moved = tx.execute("UPDATE tags SET parent_id=NULL, category_id=?1 WHERE id=?2", (target, id)).and_then(|_| {
                if target == current {
                    return Ok(0);
                }
                tx.execute(
                    "WITH RECURSIVE subtree(id) AS (SELECT id FROM tags WHERE parent_id=?1 UNION ALL SELECT t.id FROM tags t JOIN subtree s ON t.parent_id=s.id) UPDATE tags SET category_id=?2 WHERE id IN (SELECT id FROM subtree)",
                    (id, target),
                )
            });
            if moved.is_ok() {
                tx.commit().unwrap();
            } else {
                drop(tx);
            }
            assert_eq!(library.move_tag(id, None, Some(target)).is_ok(), moved.is_ok(), "{id} {target}");
            assert_same(&library, &conn);
        }
    }
}

#[test]
fn legacy_tags_become_trees_as_in_the_database() {
    let categories = [("情绪", 5), ("自定义", 9), ("", 7), ("beat", 3), ("Ä", 2)];
    let tags = [(42, "温暖", "情绪", 3), (7, "own", "", 4), (9, "x", "自定义", 1), (11, "y", "BEAT", 8), (12, "z", "fresh", 6), (13, "w", "Fresh", 2)];
    let conn = Connection::open_in_memory().unwrap();
    conn.execute_batch(
        "CREATE TABLE tag_categories (name TEXT PRIMARY KEY COLLATE NOCASE, created_at INTEGER NOT NULL);
         CREATE TABLE tags (id INTEGER PRIMARY KEY AUTOINCREMENT, name TEXT NOT NULL UNIQUE COLLATE NOCASE, category TEXT NOT NULL DEFAULT '' COLLATE NOCASE, created_at INTEGER NOT NULL);
         CREATE TABLE tag_categories_v2 (id INTEGER PRIMARY KEY AUTOINCREMENT, name TEXT NOT NULL UNIQUE COLLATE NOCASE, created_at INTEGER NOT NULL);",
    )
    .unwrap();
    for (name, at) in categories {
        conn.execute("INSERT INTO tag_categories VALUES (?1, ?2)", (name, at)).unwrap();
    }
    for (id, name, category, at) in tags {
        conn.execute("INSERT INTO tags VALUES (?1, ?2, ?3, ?4)", (id, name, category, at)).unwrap();
    }
    conn.execute_batch(
        "INSERT INTO tag_categories_v2 (name, created_at) SELECT CASE WHEN name='' OR name='自定义' THEN '未分类' ELSE name END, MIN(created_at) FROM tag_categories GROUP BY CASE WHEN name='' OR name='自定义' THEN '未分类' ELSE name END;
         INSERT OR IGNORE INTO tag_categories_v2 (name, created_at) SELECT CASE WHEN category='' OR category='自定义' THEN '未分类' ELSE category END, MIN(created_at) FROM tags GROUP BY CASE WHEN category='' OR category='自定义' THEN '未分类' ELSE category END;",
    )
    .unwrap();

    let old_categories: Vec<LegacyCategory> =
        categories.iter().map(|(name, at)| LegacyCategory { name: name.to_string(), created_at: *at }).collect();
    let old_tags: Vec<LegacyTag> = tags
        .iter()
        .map(|(id, name, category, at)| LegacyTag { id: *id, name: name.to_string(), category: category.to_string(), created_at: *at })
        .collect();
    let catalog = migrate_legacy_tag_tree(&old_categories, &old_tags).unwrap();

    let found: Vec<String> = catalog.categories.iter().map(|c| format!("{} {} {}", c.id, c.name, c.created_at)).collect();
    assert_eq!(found, texts(&conn, "SELECT id || ' ' || name || ' ' || created_at FROM tag_categories_v2 ORDER BY id"));
    let seq: i64 = conn.query_row("SELECT seq FROM sqlite_sequence WHERE name='tag_categories_v2'", [], |row| row.get(0)).unwrap();
    assert_eq!(catalog.category_seq, seq);
    let found: Vec<String> = catalog
        .tags
        .iter()
        .map(|t| {
            let home = catalog.categories.iter().find(|c| c.id == t.category_id).unwrap();
            format!("{} {} {} {}", t.id, t.name, home.name, t.created_at)
        })
        .collect();
    let sql = "SELECT t.id || ' ' || t.name || ' ' || c.name || ' ' || t.created_at FROM tags t JOIN tag_categories_v2 c ON c.name=CASE WHEN t.category='' OR t.category='自定义' THEN '未分类' ELSE t.category END";
    assert_eq!(sorted(found), sorted(texts(&conn, sql)));
}

#[test]
fn identifiers_are_given_as_in_the_database() {
    let (mut library, conn) = both();
    let ensure = |name: &str| {
        conn.execute("INSERT OR IGNORE INTO tag_categories (name, created_at) VALUES (?1, 0)", [name]).unwrap();
        conn.query_row("SELECT id FROM tag_categories WHERE name=?1", [name], |row| row.get::<_, i64>(0)).unwrap()
    };
    let add = |name: &str, category: i64| {
        conn.execute("INSERT INTO tags (name, category_id, created_at) VALUES (?1, ?2, 0)", (name, category)).unwrap();
        conn.last_insert_rowid()
    };
    for (name, category) in [("n1", "ALPHA"), ("n2", "zeta"), ("n3", "first"), ("n4", "alpha"), ("n5", "second")] {
        let record = library.create_tag(name, None, Some(category), None, 0).unwrap();
        let home = ensure(category);
        assert_eq!((record.category_id, record.id), (home, add(name, home)));
    }
    library.delete_tag(12).unwrap();
    conn.execute("DELETE FROM tags WHERE id=12", []).unwrap();
    let mut wish = input("m1", "/1");
    wish.tags = vec!["n6".to_string()];
    library.update_music(wish, Vec::new(), 0).unwrap();
    let id = add("n6", ensure("未分类"));
    assert_eq!(library.get_music("m1").unwrap().unwrap().tag_ids, vec![id]);
    library.create_tag_category("third", 0).unwrap();
    conn.execute("INSERT INTO tag_categories (name, created_at) VALUES ('third', 0)", []).unwrap();
    assert!(library.create_tag_category("THIRD", 0).is_err());
    assert!(conn.execute("INSERT INTO tag_categories (name, created_at) VALUES ('THIRD', 0)", []).is_err());
    library.create_tag_category("fourth", 0).unwrap();
    conn.execute("INSERT INTO tag_categories (name, created_at) VALUES ('fourth', 0)", []).unwrap();
    let ids: Vec<String> = library.catalog.categories.iter().map(|c| format!("{} {}", c.id, c.name)).collect();
    assert_eq!(ids, texts(&conn, "SELECT id || ' ' || name FROM tag_categories ORDER BY id"));
}

#[test]
fn names_with_nul_characters_clash_as_in_the_database() {
    let (mut library, conn) = both();
    library.create_tag("a\0b", Some(1), None, None, 0).unwrap();
    conn.execute("INSERT INTO tags (name, category_id, created_at) VALUES (?1, 1, 0)", ["a\0b"]).unwrap();
    for name in ["A\0c", "a\0bc", "a\0é", "a\0", "a"] {
        let refused = conn.execute("INSERT INTO tags (name, category_id, created_at) VALUES (?1, 1, 0)", [name]);
        let made = library.create_tag(name, Some(1), None, None, 0);
        assert_eq!(made.is_ok(), refused.is_ok(), "{name:?}");
    }
    assert_same(&library, &conn);
    library.create_tag_category("k\0x", 0).unwrap();
    library.update_tag_category("k\0x", "k\0y").unwrap();
    conn.execute("INSERT INTO tag_categories (name, created_at) VALUES (?1, 0)", ["k\0x"]).unwrap();
    conn.execute("UPDATE tag_categories SET name=?1 WHERE name=?2", ["k\0y", "k\0x"]).unwrap();
    let names: Vec<String> = library.catalog.categories.iter().map(|c| c.name.clone()).collect();
    assert_eq!(names, texts(&conn, "SELECT name FROM tag_categories ORDER BY id"));
}

#[test]
fn music_without_a_duration_is_not_read_as_in_the_database() {
    let (mut library, _) = both();
    let mut silent = input("nan", "/nan");
    silent.duration = Seconds { bits: f64::NAN.to_bits() };
    library.create_music(silent, Vec::new(), 1).unwrap();
    let mut endless = input("inf", "/inf");
    endless.duration = Seconds { bits: f64::INFINITY.to_bits() };
    library.create_music(endless, Vec::new(), 1).unwrap();

    let conn = Connection::open_in_memory().unwrap();
    conn.execute_batch(
        "CREATE TABLE music (id TEXT, name TEXT, file_name TEXT, path TEXT, file_bookmark BLOB, album TEXT, album_source TEXT, artist TEXT, genre TEXT, year TEXT, channels TEXT, sample_rate INTEGER, bitrate INTEGER, duration REAL DEFAULT 0)",
    )
    .unwrap();
    conn.execute("INSERT INTO music (id, duration) VALUES ('nan', ?1), ('inf', ?2)", [f64::NAN, f64::INFINITY]).unwrap();
    let read = |sql: &str| conn.query_row(sql, [], |row| row.get::<_, f64>("duration"));
    let older = Connection::open_in_memory().unwrap();
    older.execute_batch("CREATE TABLE music (id TEXT, name TEXT, path TEXT, album TEXT, duration REAL); INSERT INTO music (id) VALUES ('nan'); ALTER TABLE music ADD COLUMN artist TEXT DEFAULT ''").unwrap();
    let refused = older.query_row("SELECT * FROM music", [], |row| row.get::<_, f64>("duration")).unwrap_err();
    library.duration_column = 4;
    assert_eq!(message(&library.get_music("nan").err().unwrap()), format!("查询音乐失败: {refused}"));
    library.duration_column = 13;

    let refused = read("SELECT * FROM music WHERE id='nan'").unwrap_err();
    assert_eq!(message(&library.get_music("nan").err().unwrap()), format!("查询音乐失败: {refused}"));
    assert_eq!(read("SELECT * FROM music WHERE id='inf'").unwrap(), f64::INFINITY);
    assert_eq!(library.get_music("inf").unwrap().unwrap().duration.bits, f64::INFINITY.to_bits());
    let refused = read(
        "SELECT id, name, file_name, path, album, album_source, artist, genre, year, channels, sample_rate, bitrate, duration FROM music",
    )
    .unwrap_err();
    assert_eq!(message(&library.list_music().err().unwrap()), format!("读取音乐失败: {refused}"));
    library.delete_music("nan");
    assert_eq!(library.list_music().unwrap().len(), 4);
}
