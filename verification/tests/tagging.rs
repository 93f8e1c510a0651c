use music_manager::albums::apply_album_renames;
use music_manager::albums::AlbumRename;
use music_manager::catalog::Catalog;
use music_manager::catalog::CategoryRow;
use music_manager::failure::Failure;
use music_manager::failure::Rule;
use music_manager::links::sync_tag_ids;
use music_manager::links::sync_tags;
use music_manager::links::LinkRow;
use music_manager::messages::message;

fn test_catalog() -> Catalog {
    Catalog {
        categories: vec![
            CategoryRow { id: 1, name: "情绪".to_string(), created_at: 1 },
            CategoryRow { id: 2, name: "未分类".to_string(), created_at: 2 },
        ],
        category_seq: 2,
        tags: Vec::new(),
        tag_seq: 0,
    }
}

fn category_id_of(catalog: &Catalog, name: &str) -> i64 {
    catalog.categories.iter().find(|c| c.name == name).unwrap().id
}

fn add_tag(catalog: &mut Catalog, name: &str, category: &str, parent_id: Option<i64>) -> i64 {
    let category_id = category_id_of(catalog, category);
    catalog.push_tag(name, category_id, parent_id, 0)
}

fn count_tags(catalog: &Catalog, name: &str) -> usize {
    catalog.tags.iter().filter(|t| t.name.eq_ignore_ascii_case(name)).count()
}

fn category_of(catalog: &Catalog, id: i64) -> String {
    let tag = catalog.tags.iter().find(|t| t.id == id).unwrap();
    catalog.categories.iter().find(|c| c.id == tag.category_id).unwrap().name.clone()
}

fn parent_of(catalog: &Catalog, id: i64) -> Option<i64> {
    catalog.tags.iter().find(|t| t.id == id).unwrap().parent_id
}

fn linked(links: &[LinkRow], owner: &str) -> Vec<i64> {
    links.iter().filter(|l| l.owner == owner).map(|l| l.tag_id).collect()
}

fn texts(items: &[&str]) -> Vec<String> {
    items.iter().map(|s| s.to_string()).collect()
}

/// A music that gets a tag which exists must not lead to a copy of that tag.
#[test]
fn sync_tags_reuses_existing_tag_by_name() {
    let mut catalog = test_catalog();
    let mut links: Vec<LinkRow> = Vec::new();
    let real = add_tag(&mut catalog, "温暖", "情绪", None);

    sync_tags(&mut catalog, &mut links, "m1", &texts(&["温暖"]), true, 9).unwrap();

    assert_eq!(count_tags(&catalog, "温暖"), 1, "不应新建同名 Tag");
    assert_eq!(linked(&links, "m1"), vec![real], "应关联到已有的那个 Tag");
}

#[test]
fn sync_tags_creates_unknown_tag_in_uncategorized() {
    let mut catalog = test_catalog();
    let mut links: Vec<LinkRow> = Vec::new();

    sync_tags(&mut catalog, &mut links, "m1", &texts(&["全新"]), true, 9).unwrap();

    assert_eq!(count_tags(&catalog, "全新"), 1);
    let id = catalog.tags.iter().find(|t| t.name == "全新").unwrap().id;
    assert_eq!(category_of(&catalog, id), "未分类");
}

#[test]
fn sync_tags_prefers_non_uncategorized_over_stale_duplicate() {
    let mut catalog = test_catalog();
    let mut links: Vec<LinkRow> = Vec::new();
    let real = add_tag(&mut catalog, "人声", "情绪", None);
    let stale = add_tag(&mut catalog, "人声", "未分类", None);

    sync_tags(&mut catalog, &mut links, "m1", &texts(&["人声"]), true, 9).unwrap();

    assert_eq!(linked(&links, "m1"), vec![real], "应挑非未分类的那个，而不是 {stale}");
    assert_eq!(count_tags(&catalog, "人声"), 2, "解析不该顺手动数据结构");
}

#[test]
fn sync_tags_prefers_root_over_child() {
    let mut catalog = test_catalog();
    let mut links: Vec<LinkRow> = Vec::new();
    let parent = add_tag(&mut catalog, "温暖", "情绪", None);
    let child = add_tag(&mut catalog, "明亮", "情绪", Some(parent));

    sync_tags(&mut catalog, &mut links, "m1", &texts(&["明亮"]), true, 9).unwrap();

    assert_eq!(linked(&links, "m1"), vec![child], "只有子级同名时就用它");
}

#[test]
fn sync_tags_takes_the_root_where_a_child_has_the_name_too() {
    let mut catalog = test_catalog();
    let mut links: Vec<LinkRow> = Vec::new();
    let parent = add_tag(&mut catalog, "温暖", "情绪", None);
    add_tag(&mut catalog, "明亮", "情绪", Some(parent));
    let root = add_tag(&mut catalog, "明亮", "情绪", None);

    sync_tags(&mut catalog, &mut links, "m1", &texts(&["明亮"]), true, 9).unwrap();

    assert_eq!(linked(&links, "m1"), vec![root]);
}

#[test]
fn sync_tags_ignores_case_and_padding() {
    let mut catalog = test_catalog();
    let mut links: Vec<LinkRow> = Vec::new();
    let real = add_tag(&mut catalog, "Ambient", "情绪", None);

    sync_tags(&mut catalog, &mut links, "m1", &texts(&["  ambient  "]), true, 9).unwrap();

    assert_eq!(count_tags(&catalog, "Ambient"), 1);
    assert_eq!(linked(&links, "m1"), vec![real]);
}

#[test]
fn sync_tags_handles_mixed_existing_and_new() {
    let mut catalog = test_catalog();
    let mut links: Vec<LinkRow> = Vec::new();
    let existing = add_tag(&mut catalog, "人声", "情绪", None);

    sync_tags(&mut catalog, &mut links, "m1", &texts(&["人声", "全新"]), true, 9).unwrap();

    assert_eq!(count_tags(&catalog, "人声"), 1, "已有 Tag 不该被复制");
    assert_eq!(count_tags(&catalog, "全新"), 1, "新 Tag 应被创建");
    let all = linked(&links, "m1");
    assert_eq!(all.len(), 2);
    assert!(all.contains(&existing));
}

#[test]
fn sync_tags_replaces_what_was_carried_and_leaves_others_alone() {
    let mut catalog = test_catalog();
    let mut links: Vec<LinkRow> = Vec::new();
    let a = add_tag(&mut catalog, "a", "情绪", None);
    let b = add_tag(&mut catalog, "b", "情绪", None);
    sync_tags(&mut catalog, &mut links, "m1", &texts(&["a"]), true, 9).unwrap();
    sync_tags(&mut catalog, &mut links, "m2", &texts(&["a"]), true, 9).unwrap();

    sync_tags(&mut catalog, &mut links, "m1", &texts(&["b", "  ", "B"]), true, 9).unwrap();

    assert_eq!(linked(&links, "m1"), vec![b]);
    assert_eq!(linked(&links, "m2"), vec![a]);
}

#[test]
fn sync_tags_refuses_an_owner_that_does_not_exist() {
    let mut catalog = test_catalog();
    let mut links: Vec<LinkRow> = Vec::new();
    let error = sync_tags(&mut catalog, &mut links, "m1", &texts(&["a"]), false, 9).unwrap_err();
    assert_eq!(message(&error), "保存 Tag 关联失败: FOREIGN KEY constraint failed");
    assert!(links.is_empty());
    assert!(sync_tags(&mut catalog, &mut links, "m1", &texts(&[" "]), false, 9).is_ok());
}

#[test]
fn sync_tags_reports_that_identifiers_ran_out() {
    let mut catalog = test_catalog();
    catalog.tag_seq = i64::MAX;
    let mut links: Vec<LinkRow> = Vec::new();
    let error = sync_tags(&mut catalog, &mut links, "m1", &texts(&["a"]), true, 9).unwrap_err();
    assert_eq!(message(&error), "保存 Tag 失败: database or disk is full");

    let mut bare = Catalog { categories: Vec::new(), category_seq: i64::MAX, tags: Vec::new(), tag_seq: 0 };
    let error = sync_tags(&mut bare, &mut links, "m1", &texts(&["a"]), true, 9).unwrap_err();
    assert_eq!(message(&error), "创建未分类维度失败: database or disk is full");
}

#[test]
fn apply_album_renames_moves_and_merges_tags() {
    let mut catalog = test_catalog();
    let tag_a = add_tag(&mut catalog, "温暖", "情绪", None);
    let tag_b = add_tag(&mut catalog, "人声", "情绪", None);
    let mut links = vec![
        LinkRow { owner: "旧专辑".to_string(), tag_id: tag_a },
        LinkRow { owner: "旧专辑".to_string(), tag_id: tag_b },
        LinkRow { owner: "新专辑".to_string(), tag_id: tag_a },
    ];

    let renames = vec![AlbumRename { from: "旧专辑".to_string(), to: "新专辑".to_string() }];
    apply_album_renames(&mut links, &renames);

    assert_eq!(linked(&links, "旧专辑").len(), 0, "旧名字下不该再挂 Tag");
    let mut new_tags = linked(&links, "新专辑");
    new_tags.sort();
    assert_eq!(new_tags, vec![tag_a.min(tag_b), tag_a.max(tag_b)], "冲突行应合并去重");
}

#[test]
fn apply_album_renames_passes_over_an_album_that_keeps_its_name() {
    let mut links = vec![LinkRow { owner: "A".to_string(), tag_id: 1 }];
    let renames = vec![AlbumRename { from: "A".to_string(), to: "A".to_string() }];
    apply_album_renames(&mut links, &renames);
    assert_eq!(linked(&links, "A"), vec![1]);
}

#[test]
fn sync_tag_ids_preserves_exact_same_name_identity() {
    let mut catalog = test_catalog();
    let mut links: Vec<LinkRow> = Vec::new();
    let emotional = add_tag(&mut catalog, "现场", "情绪", None);
    let uncategorized = add_tag(&mut catalog, "现场", "未分类", None);

    sync_tag_ids(&mut catalog, &mut links, "m1", &vec![uncategorized], &Vec::new(), true, 9).unwrap();

    assert_eq!(linked(&links, "m1"), vec![uncategorized]);
    assert_ne!(linked(&links, "m1")[0], emotional);
}

#[test]
fn sync_tag_ids_adds_new_free_text_tags() {
    let mut catalog = test_catalog();
    let mut links: Vec<LinkRow> = Vec::new();
    let existing = add_tag(&mut catalog, "现场", "情绪", None);

    sync_tag_ids(&mut catalog, &mut links, "m1", &vec![existing], &texts(&["新标签"]), true, 9).unwrap();

    assert_eq!(linked(&links, "m1").len(), 2);
    assert_eq!(count_tags(&catalog, "新标签"), 1);
}

#[test]
fn sync_tag_ids_refuses_a_tag_that_does_not_exist() {
    let mut catalog = test_catalog();
    let mut links: Vec<LinkRow> = Vec::new();
    let error = sync_tag_ids(&mut catalog, &mut links, "m1", &vec![7], &Vec::new(), true, 9).unwrap_err();
    assert!(matches!(error, Failure::Rule(Rule::ChosenTagMissing)));
    assert_eq!(message(&error), "所选 Tag 不存在");
}

#[test]
fn move_tag_changes_category() {
    let mut catalog = test_catalog();
    let tag = add_tag(&mut catalog, "温暖", "情绪", None);

    let uncategorized = category_id_of(&catalog, "未分类");
    catalog.move_tag_in(tag, None, Some(uncategorized)).unwrap();

    assert_eq!(category_of(&catalog, tag), "未分类");
    assert_eq!(parent_of(&catalog, tag), None, "落到根层");
}

#[test]
fn move_tag_keeps_category_when_only_parent_given() {
    let mut catalog = test_catalog();
    let parent = add_tag(&mut catalog, "温暖", "情绪", None);
    let child = add_tag(&mut catalog, "沙发", "情绪", None);

    catalog.move_tag_in(child, Some(parent), None).unwrap();

    assert_eq!(parent_of(&catalog, child), Some(parent));
    assert_eq!(category_of(&catalog, child), "情绪");
}

#[test]
fn move_tag_follows_parent_category() {
    let mut catalog = test_catalog();
    let root = add_tag(&mut catalog, "温暖", "未分类", None);
    let other = add_tag(&mut catalog, "节奏感", "情绪", None);

    catalog.move_tag_in(root, Some(other), None).unwrap();

    assert_eq!(parent_of(&catalog, root), Some(other));
    assert_eq!(category_of(&catalog, root), "情绪", "应跟随父 Tag 的维度");
}

#[test]
fn move_tag_moves_descendants_along() {
    let mut catalog = test_catalog();
    let root = add_tag(&mut catalog, "温暖", "情绪", None);
    let child = add_tag(&mut catalog, "沙发", "情绪", Some(root));
    let grandchild = add_tag(&mut catalog, "绒面", "情绪", Some(child));

    let uncategorized = category_id_of(&catalog, "未分类");
    catalog.move_tag_in(root, None, Some(uncategorized)).unwrap();

    assert_eq!(category_of(&catalog, root), "未分类");
    assert_eq!(category_of(&catalog, child), "未分类", "子 Tag 要跟过来");
    assert_eq!(category_of(&catalog, grandchild), "未分类", "孙 Tag 也要跟过来");
    assert_eq!(parent_of(&catalog, child), Some(root), "层级结构不该被破坏");
    assert_eq!(parent_of(&catalog, grandchild), Some(child));
}

#[test]
fn move_tag_rejects_descendant_target() {
    let mut catalog = test_catalog();
    let root = add_tag(&mut catalog, "温暖", "情绪", None);
    let child = add_tag(&mut catalog, "沙发", "情绪", Some(root));

    let error = message(&catalog.move_tag_in(root, Some(child), None).unwrap_err());

    assert!(error.contains("后代"), "应提示不能移到后代：{error}");
    assert_eq!(parent_of(&catalog, root), None, "失败后结构不变");
}

#[test]
fn move_tag_reports_name_clash() {
    let mut catalog = test_catalog();
    let tag = add_tag(&mut catalog, "温暖", "情绪", None);
    add_tag(&mut catalog, "温暖", "未分类", None);

    let uncategorized = category_id_of(&catalog, "未分类");
    let error = message(&catalog.move_tag_in(tag, None, Some(uncategorized)).unwrap_err());

    assert!(error.contains("同名"), "应提示同名：{error}");
    assert_eq!(error, "目标位置已有同名 Tag「温暖」");
    assert_eq!(category_of(&catalog, tag), "情绪", "失败后不该移动");
}

#[test]
fn move_tag_rejects_self_and_allows_noop() {
    let mut catalog = test_catalog();
    let tag = add_tag(&mut catalog, "温暖", "情绪", None);

    assert!(message(&catalog.move_tag_in(tag, Some(tag), None).unwrap_err()).contains("自身"));
    let emotional = category_id_of(&catalog, "情绪");
    catalog.move_tag_in(tag, None, Some(emotional)).unwrap();
    assert_eq!(category_of(&catalog, tag), "情绪");
}

#[test]
fn move_tag_reports_what_does_not_exist() {
    let mut catalog = test_catalog();
    let tag = add_tag(&mut catalog, "温暖", "情绪", None);
    assert_eq!(message(&catalog.move_tag_in(99, None, None).unwrap_err()), "Tag 不存在");
    assert_eq!(message(&catalog.move_tag_in(tag, Some(99), None).unwrap_err()), "父 Tag 不存在");
    assert_eq!(
        message(&catalog.move_tag_in(tag, None, Some(99)).unwrap_err()),
        "移动 Tag 失败: FOREIGN KEY constraint failed"
    );
}

#[test]
fn move_tag_is_undone_by_moving_back() {
    let mut catalog = test_catalog();
    let root = add_tag(&mut catalog, "温暖", "情绪", None);
    let child = add_tag(&mut catalog, "沙发", "情绪", Some(root));
    let leaf = add_tag(&mut catalog, "绒面", "情绪", Some(child));
    let uncategorized = category_id_of(&catalog, "未分类");

    catalog.move_tag_in(child, None, Some(uncategorized)).unwrap();
    assert_eq!(category_of(&catalog, leaf), "未分类");
    catalog.move_tag_in(child, Some(root), None).unwrap();

    assert_eq!(parent_of(&catalog, child), Some(root));
    assert_eq!(category_of(&catalog, child), "情绪");
    assert_eq!(category_of(&catalog, leaf), "情绪");
}
