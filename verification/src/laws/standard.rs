//! Laws of the tags that every library starts with.
use vstd::prelude::*;

use crate::catalog::category;
use crate::catalog::category_named;
use crate::catalog::has_category;
use crate::catalog::has_category_named;
use crate::catalog::lemma_category_at;
use crate::catalog::CatalogModel;
use crate::catalog::TagModel;
use crate::migrate::migration_home;
use crate::standard::lemma_with_categories;
use crate::standard::lemma_with_standard_tag;
use crate::standard::seeded;
use crate::standard::standard_categories;
use crate::standard::standard_home;
use crate::standard::standard_tags;
use crate::standard::with_categories;
use crate::standard::with_standard_tag;
use crate::standard::with_standard_tags;
use crate::text::nocase;
use crate::tree::lemma_with_category;
use crate::tree::with_category;

verus! {

/// Where a tag of the name `name` is made: a standard tag in its own category, any other among
/// the unassigned.
pub open spec fn home_for(name: Seq<char>) -> Seq<char> {
    if standard_tags().contains(name) {
        standard_home(name)
    } else {
        "未分类"@
    }
}

/// The standard tags have homes, and no other name has one.
pub proof fn law_standard_names_have_homes(name: Seq<char>)
    ensures
        standard_home(name).len() == 0 <==> !standard_tags().contains(name),
        migration_home(name) == home_for(name),
{
    reveal_strlit("");
    reveal_strlit("情绪");
    reveal_strlit("节奏");
    reveal_strlit("用途");
    reveal_strlit("人声");
    reveal_strlit("风格");
    reveal_strlit("结构");
    let t = standard_tags();
    assert(t[0] == "温暖"@ && t[1] == "治愈"@ && t[2] == "紧张"@ && t[3] == "悬疑"@ && t[4]
        == "悲伤"@ && t[5] == "激昂"@ && t[6] == "庄重"@ && t[7] == "舒缓"@ && t[8]
        == "中速"@ && t[9] == "快节奏"@ && t[10] == "卡点"@ && t[11] == "纪录片"@ && t[12]
        == "剧情"@ && t[13] == "预告"@);
    assert(t[14] == "转场"@ && t[15] == "片头"@ && t[16] == "片尾"@ && t[17] == "纯音乐"@
        && t[18] == "旁白友好"@ && t[19] == "人声"@ && t[20] == "电影感"@ && t[21] == "氛围"@
        && t[22] == "史诗"@ && t[23] == "电子"@ && t[24] == "渐强"@ && t[25] == "高潮"@ && t[26]
        == "铺底"@ && t[27] == "循环友好"@);
    if t.contains(name) {
        let k = choose|k: int| 0 <= k < t.len() && t[k] == name;
        assert(standard_home(t[k]).len() == 2);
    }
}

/// The homes of the standard tags, in the order of the tags.
pub open spec fn homes() -> Seq<Seq<char>> {
    seq![
        "情绪"@,
        "情绪"@,
        "情绪"@,
        "情绪"@,
        "情绪"@,
        "情绪"@,
        "情绪"@,
        "节奏"@,
        "节奏"@,
        "节奏"@,
        "节奏"@,
        "用途"@,
        "用途"@,
        "用途"@,
        "用途"@,
        "用途"@,
        "用途"@,
        "人声"@,
        "人声"@,
        "人声"@,
        "风格"@,
        "风格"@,
        "风格"@,
        "风格"@,
        "结构"@,
        "结构"@,
        "结构"@,
        "结构"@,
    ]
}

/// Every standard tag is at home in the category that is listed for it.
pub proof fn law_homes_of_standard_tags(k: int)
    requires
        0 <= k < standard_tags().len(),
    ensures
        standard_tags().len() == homes().len(),
        standard_home(standard_tags()[k]) == homes()[k],
{
    reveal_strlit("温暖");
    reveal_strlit("治愈");
    reveal_strlit("紧张");
    reveal_strlit("悬疑");
    reveal_strlit("悲伤");
    reveal_strlit("激昂");
    reveal_strlit("庄重");
    reveal_strlit("舒缓");
    reveal_strlit("中速");
    reveal_strlit("快节奏");
    reveal_strlit("卡点");
    reveal_strlit("纪录片");
    reveal_strlit("剧情");
    reveal_strlit("预告");
    reveal_strlit("转场");
    reveal_strlit("片头");
    reveal_strlit("片尾");
    reveal_strlit("纯音乐");
    reveal_strlit("旁白友好");
    reveal_strlit("人声");
    reveal_strlit("电影感");
    reveal_strlit("氛围");
    reveal_strlit("史诗");
    reveal_strlit("电子");
    reveal_strlit("渐强");
    reveal_strlit("高潮");
    reveal_strlit("铺底");
    reveal_strlit("循环友好");
    assert("温暖"@[0] == '温');
    assert("治愈"@[0] == '治');
    assert("紧张"@[0] == '紧');
    assert("悬疑"@[0] == '悬');
    assert("悲伤"@[0] == '悲');
    assert("激昂"@[0] == '激');
    assert("庄重"@[0] == '庄');
    assert("舒缓"@[0] == '舒');
    assert("中速"@[0] == '中');
    assert("快节奏"@[0] == '快');
    assert("卡点"@[0] == '卡');
    assert("纪录片"@[0] == '纪');
    assert("剧情"@[0] == '剧');
    assert("预告"@[0] == '预');
    assert("转场"@[0] == '转');
    assert("片头"@[0] == '片');
    assert("片尾"@[0] == '片');
    assert("纯音乐"@[0] == '纯');
    assert("旁白友好"@[0] == '旁');
    assert("人声"@[0] == '人');
    assert("电影感"@[0] == '电');
    assert("氛围"@[0] == '氛');
    assert("史诗"@[0] == '史');
    assert("电子"@[0] == '电');
    assert("渐强"@[0] == '渐');
    assert("高潮"@[0] == '高');
    assert("铺底"@[0] == '铺');
    assert("循环友好"@[0] == '循');
    assert(standard_home("温暖"@) == "情绪"@);
    assert(standard_home("治愈"@) == "情绪"@);
    assert(standard_home("紧张"@) == "情绪"@);
    assert(standard_home("悬疑"@) == "情绪"@);
    assert(standard_home("悲伤"@) == "情绪"@);
    assert(standard_home("激昂"@) == "情绪"@);
    assert(standard_home("庄重"@) == "情绪"@);
    assert(standard_home("舒缓"@) == "节奏"@);
    assert(standard_home("中速"@) == "节奏"@);
    assert(standard_home("快节奏"@) == "节奏"@);
    assert(standard_home("卡点"@) == "节奏"@);
    assert(standard_home("纪录片"@) == "用途"@);
    assert(standard_home("剧情"@) == "用途"@);
    assert(standard_home("预告"@) == "用途"@);
    assert(standard_home("转场"@) == "用途"@);
    assert(standard_home("片头"@) == "用途"@);
    assert(standard_home("片尾"@) == "用途"@);
    assert(standard_home("纯音乐"@) == "人声"@);
    assert(standard_home("旁白友好"@) == "人声"@);
    assert(standard_home("人声"@) == "人声"@);
    assert(standard_home("电影感"@) == "风格"@);
    assert(standard_home("氛围"@) == "风格"@);
    assert(standard_home("史诗"@) == "风格"@);
    assert(standard_home("电子"@) == "风格"@);
    assert(standard_home("渐强"@) == "结构"@);
    assert(standard_home("高潮"@) == "结构"@);
    assert(standard_home("铺底"@) == "结构"@);
    assert(standard_home("循环友好"@) == "结构"@);
    let (t, h) = (standard_tags(), homes());
    assert(t[0] == "温暖"@ && h[0] == "情绪"@);
    assert(t[1] == "治愈"@ && h[1] == "情绪"@);
    assert(t[2] == "紧张"@ && h[2] == "情绪"@);
    assert(t[3] == "悬疑"@ && h[3] == "情绪"@);
    assert(t[4] == "悲伤"@ && h[4] == "情绪"@);
    assert(t[5] == "激昂"@ && h[5] == "情绪"@);
    assert(t[6] == "庄重"@ && h[6] == "情绪"@);
    assert(t[7] == "舒缓"@ && h[7] == "节奏"@);
    assert(t[8] == "中速"@ && h[8] == "节奏"@);
    assert(t[9] == "快节奏"@ && h[9] == "节奏"@);
    assert(t[10] == "卡点"@ && h[10] == "节奏"@);
    assert(t[11] == "纪录片"@ && h[11] == "用途"@);
    assert(t[12] == "剧情"@ && h[12] == "用途"@);
    assert(t[13] == "预告"@ && h[13] == "用途"@);
    assert(t[14] == "转场"@ && h[14] == "用途"@);
    assert(t[15] == "片头"@ && h[15] == "用途"@);
    assert(t[16] == "片尾"@ && h[16] == "用途"@);
    assert(t[17] == "纯音乐"@ && h[17] == "人声"@);
    assert(t[18] == "旁白友好"@ && h[18] == "人声"@);
    assert(t[19] == "人声"@ && h[19] == "人声"@);
    assert(t[20] == "电影感"@ && h[20] == "风格"@);
    assert(t[21] == "氛围"@ && h[21] == "风格"@);
    assert(t[22] == "史诗"@ && h[22] == "风格"@);
    assert(t[23] == "电子"@ && h[23] == "风格"@);
    assert(t[24] == "渐强"@ && h[24] == "结构"@);
    assert(t[25] == "高潮"@ && h[25] == "结构"@);
    assert(t[26] == "铺底"@ && h[26] == "结构"@);
    assert(t[27] == "循环友好"@ && h[27] == "结构"@);
}

/// Whether `t` is the standard tag `name` as it is made: at the root of its home.
pub open spec fn is_standard(c: CatalogModel, t: TagModel, name: Seq<char>) -> bool {
    &&& nocase(t.name) == nocase(name)
    &&& t.parent_id is None
    &&& has_category(c.categories, t.category_id)
    &&& nocase(category(c.categories, t.category_id).name) == nocase(standard_home(name))
}

/// Categories are added by name behind those that are there, where none has the name, as long
/// as there are identifiers.
pub proof fn law_categories_are_added(c: CatalogModel, names: Seq<Seq<char>>, now: i64)
    requires
        c.wf(),
    ensures
        ({
            let (d, e) = with_categories(c, names, now);
            &&& c.category_seq + names.len() <= i64::MAX ==> e is None
            &&& d.tags == c.tags
            &&& d.tag_seq == c.tag_seq
            &&& c.categories.len() <= d.categories.len()
            &&& d.categories.take(c.categories.len() as int) == c.categories
            &&& e is None ==> forall|k: int|
                0 <= k < names.len() ==> has_category_named(d.categories, #[trigger] names[k])
            &&& forall|i: int|
                c.categories.len() <= i < d.categories.len() ==> (
                #[trigger] d.categories[i]).created_at == now && names.contains(
                    d.categories[i].name,
                )
        }),
    decreases names.len(),
{
    let (d, e) = with_categories(c, names, now);
    lemma_with_categories(c, names, now);
    assert(c.categories.take(c.categories.len() as int) =~= c.categories);
    if names.len() > 0 && c.category_seq < i64::MAX {
        let rest = names.drop_first();
        let m = with_category(c, names[0], now)->0;
        lemma_with_category(c, names[0], now);
        law_categories_are_added(m, rest, now);
        let n = c.categories.len() as int;
        assert(m.categories.take(n) =~= c.categories);
        assert(d.categories.take(n) =~= d.categories.take(m.categories.len() as int).take(n));
        assert forall|i: int| n <= i < d.categories.len() implies (
        #[trigger] d.categories[i]).created_at == now && names.contains(d.categories[i].name) by {
            if i < m.categories.len() {
                assert(d.categories.take(m.categories.len() as int)[i] == m.categories[i]);
                assert(names[0] == m.categories[i].name);
            } else {
                assert(rest.contains(d.categories[i].name));
                let k = choose|k: int| 0 <= k < rest.len() && rest[k] == d.categories[i].name;
                assert(names[k + 1] == rest[k]);
            }
        }
    }
}

/// Standard tags are added behind those that are there: each of the names, where its home is
/// there, and nothing else.
pub proof fn law_standard_tags_are_added(c: CatalogModel, names: Seq<Seq<char>>, now: i64)
    requires
        c.wf(),
        forall|k: int|
            0 <= k < names.len() ==> has_category_named(
                c.categories,
                standard_home(#[trigger] names[k]),
            ),
    ensures
        ({
            let (d, e) = with_standard_tags(c, names, now);
            &&& c.tag_seq + names.len() <= i64::MAX ==> e is None
            &&& d.categories == c.categories
            &&& c.tags.len() <= d.tags.len()
            &&& d.tags.take(c.tags.len() as int) == c.tags
            &&& e is None ==> forall|k: int|
                0 <= k < names.len() ==> exists|i: int|
                    0 <= i < d.tags.len() && is_standard(
                        d,
                        #[trigger] d.tags[i],
                        #[trigger] names[k],
                    )
            &&& forall|i: int|
                c.tags.len() <= i < d.tags.len() ==> (#[trigger] d.tags[i]).created_at == now
                    && names.contains(d.tags[i].name) && is_standard(d, d.tags[i], d.tags[i].name)
        }),
    decreases names.len(),
{
    let (d, e) = with_standard_tags(c, names, now);
    assert(c.tags.take(c.tags.len() as int) =~= c.tags);
    if names.len() > 0 && c.tag_seq < i64::MAX {
        let rest = names.drop_first();
        let name = names[0];
        let m = with_standard_tag(c, name, now);
        lemma_with_standard_tag(c, name, now);
        assert(has_category_named(c.categories, standard_home(names[0])));
        let x = choose|x: int|
            0 <= x < c.categories.len() && nocase(#[trigger] c.categories[x].name) == nocase(
                standard_home(name),
            );
        let home = category_named(c.categories, standard_home(name)).id;
        assert(c.categories[x].id == home);
        lemma_category_at(c.categories, c.category_seq, x);
        assert forall|k: int| 0 <= k < rest.len() implies has_category_named(
            m.categories,
            standard_home(#[trigger] rest[k]),
        ) by {
            assert(names[k + 1] == rest[k]);
        }
        law_standard_tags_are_added(m, rest, now);
        let n = c.tags.len() as int;
        assert(m.tags.take(n) =~= c.tags);
        assert(d.tags.take(n) =~= d.tags.take(m.tags.len() as int).take(n));
        assert(exists|i: int| 0 <= i < m.tags.len() && is_standard(m, #[trigger] m.tags[i], name))
            by {
            if m.tags.len() > n {
                assert(is_standard(m, m.tags[n], name));
            } else {
                let i = choose|i: int|
                    0 <= i < c.tags.len() && (#[trigger] c.tags[i]).id != 0 && c.tags[i].category_id
                        == home && c.tags[i].parent_id == None::<i64> && nocase(c.tags[i].name)
                        == nocase(name);
                assert(is_standard(m, m.tags[i], name));
            }
        }
        let f = choose|i: int| 0 <= i < m.tags.len() && is_standard(m, #[trigger] m.tags[i], name);
        assert(d.tags.take(m.tags.len() as int)[f] == m.tags[f]);
        assert(is_standard(d, d.tags[f], names[0]));
        if e is None {
            assert forall|k: int| 0 <= k < names.len() implies exists|i: int|
                0 <= i < d.tags.len() && is_standard(
                    d,
                    #[trigger] d.tags[i],
                    #[trigger] names[k],
                ) by {
                if k > 0 {
                    assert(rest[k - 1] == names[k]);
                }
            }
        }
        assert forall|i: int| n <= i < d.tags.len() implies (#[trigger] d.tags[i]).created_at == now
            && names.contains(d.tags[i].name) && is_standard(d, d.tags[i], d.tags[i].name) by {
            if i < m.tags.len() {
                assert(d.tags.take(m.tags.len() as int)[i] == m.tags[i]);
                assert(names[0] == m.tags[i].name);
                assert(is_standard(m, m.tags[i], name));
            } else {
                assert(rest.contains(d.tags[i].name));
                let k = choose|k: int| 0 <= k < rest.len() && rest[k] == d.tags[i].name;
                assert(names[k + 1] == rest[k]);
            }
        }
    }
}

/// A library that holds tags is left as it is. One that holds none gets the standard categories
/// that it lacks, and every standard tag, each at the root of its home, and no other; as long
/// as there are identifiers.
pub proof fn law_library_starts_with_the_standard_tags(c: CatalogModel, now: i64)
    requires
        c.wf(),
    ensures
        c.tags.len() > 0 ==> seeded(c, now) == (c, None::<crate::failure::ErrorModel>),
        c.category_seq + standard_categories().len() <= i64::MAX && c.tag_seq
            + standard_tags().len() <= i64::MAX ==> seeded(c, now).1 is None,
        ({
            let (d, e) = seeded(c, now);
            &&& c.categories.len() <= d.categories.len()
            &&& d.categories.take(c.categories.len() as int) == c.categories
            &&& forall|i: int|
                c.categories.len() <= i < d.categories.len() ==> (
                #[trigger] d.categories[i]).created_at == now && standard_categories().contains(
                    d.categories[i].name,
                )
            &&& c.tags.len() == 0 && e is None ==> forall|k: int|
                0 <= k < standard_categories().len() ==> has_category_named(
                    d.categories,
                    #[trigger] standard_categories()[k],
                )
            &&& c.tags.len() == 0 && e is None ==> forall|k: int|
                0 <= k < standard_tags().len() ==> exists|i: int|
                    0 <= i < d.tags.len() && is_standard(
                        d,
                        #[trigger] d.tags[i],
                        #[trigger] standard_tags()[k],
                    )
            &&& c.tags.len() == 0 ==> forall|i: int|
                0 <= i < d.tags.len() ==> (#[trigger] d.tags[i]).created_at == now
                    && standard_tags().contains(d.tags[i].name) && is_standard(
                    d,
                    d.tags[i],
                    d.tags[i].name,
                )
        }),
{
    assert(c.categories.take(c.categories.len() as int) =~= c.categories);
    if c.tags.len() == 0 {
        let (d, e) = with_categories(c, standard_categories(), now);
        law_categories_are_added(c, standard_categories(), now);
        lemma_with_categories(c, standard_categories(), now);
        if e is None {
            assert forall|k: int| 0 <= k < standard_tags().len() implies has_category_named(
                d.categories,
                standard_home(#[trigger] standard_tags()[k]),
            ) by {
                crate::standard::law_standard_tags_have_homes(k);
                let all = standard_categories();
                let x = choose|x: int|
                    0 <= x < all.len() && all[x] == standard_home(standard_tags()[k]);
                assert(has_category_named(d.categories, all[x]));
            }
            law_standard_tags_are_added(d, standard_tags(), now);
        }
    }
}

} // verus!
