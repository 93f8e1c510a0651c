//! The tags that every library starts with.
use vstd::prelude::*;

use crate::catalog::aligned;
use crate::catalog::category_named;
use crate::catalog::has_category_named;
use crate::catalog::has_tag;
use crate::catalog::models;
use crate::catalog::Catalog;
use crate::catalog::CatalogModel;
use crate::failure::Constraint;
use crate::failure::ErrorModel;
use crate::failure::Failure;
use crate::failure::LibraryError;
use crate::failure::Step;
use crate::naming::lemma_with_new_tag;
use crate::naming::with_new_tag;
use crate::text::nocase;
use crate::text::same_text;
use crate::tree::lemma_with_category;
use crate::tree::taken;
use crate::tree::with_category;

verus! {

/// The category of a standard tag; nothing for any other name.
pub open spec fn standard_home(name: Seq<char>) -> Seq<char> {
    if name == "温暖"@ || name == "治愈"@ || name == "紧张"@ || name == "悬疑"@ || name
        == "悲伤"@ || name == "激昂"@ || name == "庄重"@ {
        "情绪"@
    } else if name == "舒缓"@ || name == "中速"@ || name == "快节奏"@ || name == "卡点"@ {
        "节奏"@
    } else if name == "纪录片"@ || name == "剧情"@ || name == "预告"@ || name == "转场"@
        || name == "片头"@ || name == "片尾"@ {
        "用途"@
    } else if name == "纯音乐"@ || name == "旁白友好"@ || name == "人声"@ {
        "人声"@
    } else if name == "电影感"@ || name == "氛围"@ || name == "史诗"@ || name == "电子"@ {
        "风格"@
    } else if name == "渐强"@ || name == "高潮"@ || name == "循环友好"@ || name == "铺底"@ {
        "结构"@
    } else {
        ""@
    }
}

/// The category of a standard tag; nothing for any other name.
pub fn tag_category(name: &str) -> (r: &'static str)
    ensures
        r@ == standard_home(name@),
{
    if same_text(name, "温暖") || same_text(name, "治愈") || same_text(name, "紧张")
        || same_text(name, "悬疑") || same_text(name, "悲伤") || same_text(name, "激昂")
        || same_text(name, "庄重") {
        "情绪"
    } else if same_text(name, "舒缓") || same_text(name, "中速") || same_text(
        name,
        "快节奏",
    ) || same_text(name, "卡点") {
        "节奏"
    } else if same_text(name, "纪录片") || same_text(name, "剧情") || same_text(
        name,
        "预告",
    ) || same_text(name, "转场") || same_text(name, "片头") || same_text(name, "片尾") {
        "用途"
    } else if same_text(name, "纯音乐") || same_text(name, "旁白友好") || same_text(
        name,
        "人声",
    ) {
        "人声"
    } else if same_text(name, "电影感") || same_text(name, "氛围") || same_text(
        name,
        "史诗",
    ) || same_text(name, "电子") {
        "风格"
    } else if same_text(name, "渐强") || same_text(name, "高潮") || same_text(
        name,
        "循环友好",
    ) || same_text(name, "铺底") {
        "结构"
    } else {
        ""
    }
}

/// The categories that every library starts with.
pub open spec fn standard_categories() -> Seq<Seq<char>> {
    seq!["情绪"@, "节奏"@, "用途"@, "人声"@, "风格"@, "结构"@, "未分类"@]
}

/// The tags that every library starts with.
pub open spec fn standard_tags() -> Seq<Seq<char>> {
    seq![
        "温暖"@,
        "治愈"@,
        "紧张"@,
        "悬疑"@,
        "悲伤"@,
        "激昂"@,
        "庄重"@,
        "舒缓"@,
        "中速"@,
        "快节奏"@,
        "卡点"@,
        "纪录片"@,
        "剧情"@,
        "预告"@,
        "转场"@,
        "片头"@,
        "片尾"@,
        "纯音乐"@,
        "旁白友好"@,
        "人声"@,
        "电影感"@,
        "氛围"@,
        "史诗"@,
        "电子"@,
        "渐强"@,
        "高潮"@,
        "铺底"@,
        "循环友好"@,
    ]
}

/// The categories that every library starts with.
fn category_list() -> (r: Vec<String>)
    ensures
        models(r@) == standard_categories(),
{
    let r = vec![
        "情绪".to_string(),
        "节奏".to_string(),
        "用途".to_string(),
        "人声".to_string(),
        "风格".to_string(),
        "结构".to_string(),
        "未分类".to_string(),
    ];
    proof {
        assert(models(r@) =~= standard_categories());
    }
    r
}

/// The tags that every library starts with.
fn tag_list() -> (r: Vec<String>)
    ensures
        models(r@) == standard_tags(),
{
    let r = vec![
        "温暖".to_string(),
        "治愈".to_string(),
        "紧张".to_string(),
        "悬疑".to_string(),
        "悲伤".to_string(),
        "激昂".to_string(),
        "庄重".to_string(),
        "舒缓".to_string(),
        "中速".to_string(),
        "快节奏".to_string(),
        "卡点".to_string(),
        "纪录片".to_string(),
        "剧情".to_string(),
        "预告".to_string(),
        "转场".to_string(),
        "片头".to_string(),
        "片尾".to_string(),
        "纯音乐".to_string(),
        "旁白友好".to_string(),
        "人声".to_string(),
        "电影感".to_string(),
        "氛围".to_string(),
        "史诗".to_string(),
        "电子".to_string(),
        "渐强".to_string(),
        "高潮".to_string(),
        "铺底".to_string(),
        "循环友好".to_string(),
    ];
    proof {
        assert(models(r@) =~= standard_tags());
    }
    r
}

/// The catalog with categories of the names given, as far as the identifiers last.
pub open spec fn with_categories(c: CatalogModel, names: Seq<Seq<char>>, now: i64) -> (
    CatalogModel,
    Option<ErrorModel>,
)
    decreases names.len(),
{
    if names.len() == 0 {
        (c, None)
    } else {
        match with_category(c, names[0], now) {
            None => (c, Some(Failure::Write(Step::SeedCategory, Constraint::Full))),
            Some(d) => with_categories(d, names.drop_first(), now),
        }
    }
}

/// The catalog with a standard tag at the root of its category, unless one of its name
/// stands there.
pub open spec fn with_standard_tag(c: CatalogModel, name: Seq<char>, now: i64) -> CatalogModel {
    let home = category_named(c.categories, standard_home(name)).id;
    if !has_category_named(c.categories, standard_home(name)) || taken(
        c.tags,
        0,
        home,
        None,
        name,
    ) {
        c
    } else {
        with_new_tag(c, name, home, None, now)
    }
}

/// The catalog with the standard tags of the names given, as far as the identifiers
/// last.
pub open spec fn with_standard_tags(c: CatalogModel, names: Seq<Seq<char>>, now: i64) -> (
    CatalogModel,
    Option<ErrorModel>,
)
    decreases names.len(),
{
    if names.len() == 0 {
        (c, None)
    } else if c.tag_seq == i64::MAX {
        (c, Some(Failure::Write(Step::SeedTag, Constraint::Full)))
    } else {
        with_standard_tags(with_standard_tag(c, names[0], now), names.drop_first(), now)
    }
}

/// The catalog with the standard categories and tags, if it held no tags; and why they
/// are not all there, if they are not.
pub open spec fn seeded(c: CatalogModel, now: i64) -> (CatalogModel, Option<ErrorModel>) {
    if c.tags.len() > 0 {
        (c, None)
    } else {
        match with_categories(c, standard_categories(), now) {
            (d, Some(e)) => (d, Some(e)),
            (d, None) => with_standard_tags(d, standard_tags(), now),
        }
    }
}

pub proof fn lemma_with_categories(c: CatalogModel, names: Seq<Seq<char>>, now: i64)
    requires
        c.wf(),
    ensures
        ({
            let (d, e) = with_categories(c, names, now);
            &&& d.wf()
            &&& d.tags == c.tags
            &&& d.tag_seq == c.tag_seq
            &&& e is None ==> forall|k: int|
                0 <= k < names.len() ==> has_category_named(d.categories, #[trigger] names[k])
            &&& forall|n: Seq<char>| #[trigger]
                has_category_named(c.categories, n) ==> has_category_named(d.categories, n)
        }),
    decreases names.len(),
{
    if names.len() > 0 {
        if let Some(d) = with_category(c, names[0], now) {
            lemma_with_category(c, names[0], now);
            lemma_with_categories(d, names.drop_first(), now);
            let (e, err) = with_categories(c, names, now);
            assert forall|n: Seq<char>| #[trigger] has_category_named(c.categories, n) implies
                has_category_named(d.categories, n) by {
                let i = choose|i: int|
                    0 <= i < c.categories.len() && nocase(#[trigger] c.categories[i].name)
                        == nocase(n);
                assert(d.categories[i] == c.categories[i]);
            }
            assert forall|n: Seq<char>| #[trigger] has_category_named(c.categories, n) implies
                has_category_named(e.categories, n) by {
                assert(has_category_named(d.categories, n));
            }
            if err is None {
                assert forall|k: int| 0 <= k < names.len() implies has_category_named(
                    e.categories,
                    #[trigger] names[k],
                ) by {
                    if k > 0 {
                        assert(names.drop_first()[k - 1] == names[k]);
                    }
                }
            }
        }
    }
}

pub proof fn lemma_with_standard_tag(c: CatalogModel, name: Seq<char>, now: i64)
    requires
        c.wf(),
        c.tag_seq < i64::MAX,
    ensures
        with_standard_tag(c, name, now).wf(),
        with_standard_tag(c, name, now).categories == c.categories,
        c.tags.len() <= with_standard_tag(c, name, now).tags.len(),
        has_category_named(c.categories, standard_home(name)) && c.tags.len() == 0
            ==> with_standard_tag(c, name, now).tags.len() == 1,
        forall|x: i64| #[trigger]
            has_tag(c.tags, x) ==> has_tag(with_standard_tag(c, name, now).tags, x),
        aligned(c.tags) ==> aligned(with_standard_tag(c, name, now).tags),
{
    let home = category_named(c.categories, standard_home(name)).id;
    if has_category_named(c.categories, standard_home(name)) && !taken(
        c.tags,
        0,
        home,
        None,
        name,
    ) {
        let k = choose|k: int|
            0 <= k < c.categories.len() && nocase(#[trigger] c.categories[k].name) == nocase(
                standard_home(name),
            );
        assert(c.categories[k].id == home);
        assert forall|i: int| 0 <= i < c.tags.len() implies !((#[trigger] c.tags[i]).category_id
            == home && c.tags[i].parent_id == None::<i64> && nocase(c.tags[i].name) == nocase(
            name,
        )) by {
            assert(1 <= c.tags[i].id);
        }
        lemma_with_new_tag(c, name, home, None, now);
    }
}

pub proof fn lemma_with_standard_tags(c: CatalogModel, names: Seq<Seq<char>>, now: i64)
    requires
        c.wf(),
    ensures
        with_standard_tags(c, names, now).0.wf(),
        with_standard_tags(c, names, now).0.categories == c.categories,
        c.tags.len() <= with_standard_tags(c, names, now).0.tags.len(),
        forall|x: i64| #[trigger]
            has_tag(c.tags, x) ==> has_tag(with_standard_tags(c, names, now).0.tags, x),
        aligned(c.tags) ==> aligned(with_standard_tags(c, names, now).0.tags),
    decreases names.len(),
{
    if names.len() > 0 && c.tag_seq < i64::MAX {
        let d = with_standard_tag(c, names[0], now);
        lemma_with_standard_tag(c, names[0], now);
        lemma_with_standard_tags(d, names.drop_first(), now);
        assert forall|x: i64| #[trigger] has_tag(c.tags, x) implies has_tag(
            with_standard_tags(c, names, now).0.tags,
            x,
        ) by {
            assert(has_tag(d.tags, x));
        }
    }
}

/// What seeding keeps: the tables are in order and every tag exists still.
pub proof fn lemma_seeded(c: CatalogModel, now: i64)
    requires
        c.wf(),
    ensures
        seeded(c, now).0.wf(),
        forall|x: i64| #[trigger] has_tag(c.tags, x) ==> has_tag(seeded(c, now).0.tags, x),
        aligned(c.tags) ==> aligned(seeded(c, now).0.tags),
{
    if c.tags.len() == 0 {
        lemma_with_categories(c, standard_categories(), now);
        let (d, e) = with_categories(c, standard_categories(), now);
        if e is None {
            lemma_with_standard_tags(d, standard_tags(), now);
        }
    }
}

/// A catalog that was seeded holds tags, and to seed it again changes nothing.
pub proof fn law_seeding_is_done_once(c: CatalogModel, now: i64, later: i64)
    requires
        c.wf(),
        seeded(c, now).1 is None,
    ensures
        seeded(c, now).0.tags.len() > 0,
        seeded(seeded(c, now).0, later) == (seeded(c, now).0, None::<ErrorModel>),
{
    if c.tags.len() == 0 {
        lemma_with_categories(c, standard_categories(), now);
        let (d, e) = with_categories(c, standard_categories(), now);
        assert(standard_tags()[0] == "温暖"@);
        assert(standard_home("温暖"@) == "情绪"@);
        assert(standard_categories()[0] == "情绪"@);
        assert(has_category_named(d.categories, standard_categories()[0]));
        assert(standard_tags().len() > 0);
        lemma_with_standard_tag(d, standard_tags()[0], now);
        lemma_with_standard_tags(
            with_standard_tag(d, standard_tags()[0], now),
            standard_tags().drop_first(),
            now,
        );
    }
}

/// Every standard tag stands in one of the standard categories, and none among the
/// uncategorized.
pub proof fn law_standard_tags_have_homes(k: int)
    requires
        0 <= k < standard_tags().len(),
    ensures
        standard_categories().contains(standard_home(standard_tags()[k])),
        standard_home(standard_tags()[k]) != "未分类"@,
{
    reveal_strlit("情绪");
    reveal_strlit("节奏");
    reveal_strlit("用途");
    reveal_strlit("人声");
    reveal_strlit("风格");
    reveal_strlit("结构");
    reveal_strlit("未分类");
    let all = standard_categories();
    let name = standard_tags()[k];
    assert(all[0] == "情绪"@);
    assert(all[1] == "节奏"@);
    assert(all[2] == "用途"@);
    assert(all[3] == "人声"@);
    assert(all[4] == "风格"@);
    assert(all[5] == "结构"@);
    assert(standard_home(name).len() == 2);
    assert("未分类"@.len() == 3);
}

impl Catalog {
    /// Adds the standard categories and tags, if there are no tags. Where that breaks
    /// off, what was added stays.
    pub fn seed_standard_tags(&mut self, now: i64) -> (r: Result<(), LibraryError>)
        requires
            old(self)@.wf(),
        ensures
            final(self)@.wf(),
            final(self)@ == seeded(old(self)@, now).0,
            match seeded(old(self)@, now).1 {
                Some(e) => r matches Err(f) && f@ == e,
                None => r is Ok,
            },
    {
        proof {
            lemma_seeded(self@, now);
        }
        if self.tags.len() > 0 {
            return Ok(());
        }
        let categories = category_list();
        let ghost names = models(categories@);
        let ghost start = with_categories(self@, names, now);
        let mut i: usize = 0;
        proof {
            assert(names.skip(0) =~= names);
        }
        while i < categories.len()
            invariant
                i <= categories@.len(),
                names == models(categories@),
                names == standard_categories(),
                self@.wf(),
                old(self)@.wf(),
                old(self)@.tags.len() == 0,
                start == with_categories(old(self)@, names, now),
                start == with_categories(self@, names.skip(i as int), now),
            decreases categories@.len() - i,
        {
            proof {
                assert(names.skip(i as int).drop_first() =~= names.skip(i + 1));
                assert(names.skip(i as int)[0] == names[i as int]);
            }
            if self.find_or_add_category(categories[i].as_str(), now).is_none() {
                return Err(Failure::Write(Step::SeedCategory, Constraint::Full));
            }
            i = i + 1;
        }
        let tags = tag_list();
        let ghost middle = self@;
        let ghost words = models(tags@);
        let ghost end = with_standard_tags(middle, words, now);
        let mut j: usize = 0;
        proof {
            assert(words.skip(0) =~= words);
        }
        while j < tags.len()
            invariant
                j <= tags@.len(),
                words == models(tags@),
                self@.wf(),
                seeded(old(self)@, now) == end,
                end == with_standard_tags(self@, words.skip(j as int), now),
            decreases tags@.len() - j,
        {
            proof {
                assert(words.skip(j as int).drop_first() =~= words.skip(j + 1));
                assert(words.skip(j as int)[0] == words[j as int]);
            }
            if self.tag_seq == i64::MAX {
                return Err(Failure::Write(Step::SeedTag, Constraint::Full));
            }
            proof {
                lemma_with_standard_tag(self@, words[j as int], now);
            }
            let name = tags[j].as_str();
            match self.category_named_index(tag_category(name)) {
                Some(k) => {
                    let home: i64 = self.categories[k].id;
                    proof {
                        let h = standard_home(name@);
                        assert(nocase(self@.categories[k as int].name) == nocase(h));
                        let x = choose|x: int|
                            0 <= x < self@.categories.len() && nocase(
                                #[trigger] self@.categories[x].name,
                            ) == nocase(h);
                        assert(x == k);
                    }
                    if !self.is_taken(0, home, None, name) {
                        let id = self.push_tag(name, home, None, now);
                    }
                },
                None => {},
            }
            j = j + 1;
        }
        Ok(())
    }
}

} // verus!
