//! Laws of tags and categories as they are handed out.
use vstd::prelude::*;

use crate::catalog::category;
use crate::catalog::lemma_category_at;
use crate::catalog::lemma_tag_at;
use crate::catalog::parent_of;
use crate::catalog::tag_path;
use crate::catalog::CatalogModel;
use crate::catalog::CategoryModel;
use crate::library::LibraryModel;
use crate::library_tags::countable;
use crate::library_tags::delete_tag_result;
use crate::library_tags::record_le;
use crate::library_tags::tag_records;
use crate::library_tags::times_carried;
use crate::library_tags::to_tag;
use crate::library_tags::with_catalog;
use crate::links::LinkModel;
use crate::order::in_order;
use crate::tags::category_names;
use crate::tags::category_records;
use crate::tags::is_dimension;
use crate::tags::TagCategory;
use crate::tags::TagCategoryModel;
use crate::tags::TagRecordModel;
use crate::text::nocase;
use crate::text::text_le;

verus! {

/// The path of a tag at a root is its name; that of any other is the path of the tag that it
/// stands below, and its name behind that.
pub proof fn law_path_leads_from_the_root(c: CatalogModel, i: int, j: int)
    requires
        c.wf(),
        0 <= i < c.tags.len(),
        0 <= j < c.tags.len(),
    ensures
        c.tags[i].parent_id is None ==> tag_path(c.tags, c.tags[i].id) == c.tags[i].name,
        c.tags[i].parent_id == Some(c.tags[j].id) ==> tag_path(c.tags, c.tags[i].id) == tag_path(
            c.tags,
            c.tags[j].id,
        ) + " / "@ + c.tags[i].name,
{
    lemma_tag_at(c.tags, i);
    lemma_tag_at(c.tags, j);
    assert(parent_of(c.tags, c.tags[i].id) == c.tags[i].parent_id);
}

/// A tag is handed out as it is, with its path, how often it is carried, and the name of its
/// category, which is left out where that is the one for unassigned tags.
pub proof fn law_tag_is_handed_out_as_it_is(l: LibraryModel, i: int, k: int)
    requires
        l.wf(),
        countable(l),
        0 <= i < l.catalog.tags.len(),
        0 <= k < l.catalog.categories.len(),
        l.catalog.categories[k].id == l.catalog.tags[i].category_id,
    ensures
        tag_records(l).len() == l.catalog.tags.len(),
        ({
            let (t, r) = (l.catalog.tags[i], tag_records(l)[i]);
            let home = l.catalog.categories[k].name;
            &&& r.id == t.id
            &&& r.name == t.name
            &&& r.category_id == t.category_id
            &&& r.parent_id == t.parent_id
            &&& r.path == tag_path(l.catalog.tags, t.id)
            &&& r.music_count == times_carried(l, t.id)
            &&& nocase(home) == nocase("未分类"@) ==> r.category == Seq::<char>::empty()
            &&& nocase(home) != nocase("未分类"@) ==> r.category == home
        }),
{
    let id = l.catalog.tags[i].id;
    lemma_category_at(l.catalog.categories, l.catalog.category_seq, k);
    lemma_fewer(l.music_tags, to_tag(id));
    lemma_fewer(l.clip_tags, to_tag(id));
    lemma_fewer(l.album_tags, to_tag(id));
}

proof fn lemma_fewer(links: Seq<LinkModel>, p: spec_fn(LinkModel) -> bool)
    ensures
        links.filter(p).len() <= links.len(),
    decreases links.len(),
{
    reveal(Seq::filter);
    if links.len() > 0 {
        lemma_fewer(links.drop_last(), p);
    }
}

/// How often something is carried among links with one more.
proof fn lemma_one_more(links: Seq<LinkModel>, k: LinkModel, id: i64)
    ensures
        links.push(k).filter(to_tag(id)).len() == links.filter(to_tag(id)).len() + if k.tag_id
            == id {
            1int
        } else {
            0
        },
{
    reveal(Seq::filter);
    assert(links.push(k).drop_last() =~= links);
}

/// A tag that nothing carries is carried no time; for each music, clip or album that carries
/// it, it is carried once more, and every other tag as often as before.
pub proof fn law_uses_of_a_tag_are_counted(l: LibraryModel, k: LinkModel, id: i64)
    ensures
        l.music_tags.len() == 0 && l.clip_tags.len() == 0 && l.album_tags.len() == 0
            ==> times_carried(l, id) == 0,
        k.tag_id == id ==> {
            &&& times_carried(LibraryModel { music_tags: l.music_tags.push(k), ..l }, id)
                == times_carried(l, id) + 1
            &&& times_carried(LibraryModel { clip_tags: l.clip_tags.push(k), ..l }, id)
                == times_carried(l, id) + 1
            &&& times_carried(LibraryModel { album_tags: l.album_tags.push(k), ..l }, id)
                == times_carried(l, id) + 1
        },
        k.tag_id != id ==> {
            &&& times_carried(LibraryModel { music_tags: l.music_tags.push(k), ..l }, id)
                == times_carried(l, id)
            &&& times_carried(LibraryModel { clip_tags: l.clip_tags.push(k), ..l }, id)
                == times_carried(l, id)
            &&& times_carried(LibraryModel { album_tags: l.album_tags.push(k), ..l }, id)
                == times_carried(l, id)
        },
{
    lemma_fewer(l.music_tags, to_tag(id));
    lemma_fewer(l.clip_tags, to_tag(id));
    lemma_fewer(l.album_tags, to_tag(id));
    lemma_one_more(l.music_tags, k, id);
    lemma_one_more(l.clip_tags, k, id);
    lemma_one_more(l.album_tags, k, id);
}

/// Tags are listed by the names of their categories, and those of one category by their paths,
/// ASCII case aside.
pub proof fn law_tags_are_listed_by_category_and_path(
    c: CatalogModel,
    a: TagRecordModel,
    b: TagRecordModel,
    x: int,
    y: int,
)
    requires
        c.wf(),
        0 <= x < c.categories.len(),
        0 <= y < c.categories.len(),
        c.categories[x].id == a.category_id,
        c.categories[y].id == b.category_id,
    ensures
        x == y ==> (record_le(c, a, b) <==> text_le(nocase(a.path), nocase(b.path))),
        x != y ==> (record_le(c, a, b) <==> text_le(
            nocase(c.categories[x].name),
            nocase(c.categories[y].name),
        )),
{
    lemma_category_at(c.categories, c.category_seq, x);
    lemma_category_at(c.categories, c.category_seq, y);
    if x < y {
        assert(nocase(c.categories[x].name) != nocase(c.categories[y].name));
    } else if y < x {
        assert(nocase(c.categories[y].name) != nocase(c.categories[x].name));
    }
}

/// Categories are handed out as they are, and listed by name, ASCII case aside.
pub proof fn law_categories_are_listed_by_name(
    categories: Seq<CategoryModel>,
    r: Seq<TagCategoryModel>,
    i: int,
)
    requires
        0 <= i < categories.len(),
    ensures
        category_records(categories).len() == categories.len(),
        category_records(categories)[i].id == categories[i].id,
        category_records(categories)[i].name == categories[i].name,
        in_order::<TagCategory>(r) <==> forall|x: int, y: int|
            0 <= x < y < r.len() ==> text_le(
                nocase((#[trigger] r[x]).name),
                nocase((#[trigger] r[y]).name),
            ),
{
}

/// The name of every category is listed but that for unassigned tags.
pub proof fn law_names_of_categories(
    categories: Seq<CategoryModel>,
    c: Seq<TagCategoryModel>,
    name: Seq<char>,
)
    requires
        c.to_multiset() == category_records(categories).filter(is_dimension()).to_multiset(),
    ensures
        category_names(c).contains(name) <==> nocase(name) != nocase("未分类"@) && exists|i: int|
            0 <= i < categories.len() && (#[trigger] categories[i]).name == name,
{
    broadcast use vstd::seq_lib::group_to_multiset_ensures;

    let all = category_records(categories);
    let kept = all.filter(is_dimension());
    if category_names(c).contains(name) {
        let k = choose|k: int| 0 <= k < c.len() && category_names(c)[k] == name;
        assert(c.contains(c[k]));
        assert(c.to_multiset().count(c[k]) > 0);
        assert(kept.contains(c[k]));
        let x = choose|x: int| 0 <= x < kept.len() && kept[x] == c[k];
        let a = crate::rows::lemma_filter_at(all, is_dimension(), x);
        assert(categories[a].name == name);
    }
    if nocase(name) != nocase("未分类"@) && exists|i: int|
        0 <= i < categories.len() && (#[trigger] categories[i]).name == name {
        let i = choose|i: int| 0 <= i < categories.len() && (#[trigger] categories[i]).name == name;
        assert(all[i].name == name);
        let x = crate::rows::lemma_filter_has(all, is_dimension(), i);
        assert(kept.contains(kept[x]));
        assert(kept.to_multiset().count(all[i]) > 0);
        assert(c.contains(all[i]));
        let k = choose|k: int| 0 <= k < c.len() && c[k] == all[i];
        assert(category_names(c)[k] == name);
    }
}

/// To write the catalog changes nothing else.
pub proof fn law_only_the_catalog_is_written(l: LibraryModel, c: CatalogModel)
    ensures
        with_catalog(l, c).catalog == c,
        with_catalog(l, c).music == l.music,
        with_catalog(l, c).clips == l.clips,
        with_catalog(l, c).candidates == l.candidates,
        with_catalog(l, c).music_tags == l.music_tags,
        with_catalog(l, c).clip_tags == l.clip_tags,
        with_catalog(l, c).album_tags == l.album_tags,
        with_catalog(l, c).duration_column == l.duration_column,
{
}

/// To remove a tag changes the tags and what carries them, and nothing else; and that it can be
/// removed rests with the tags alone.
pub proof fn law_removed_tag_leaves_the_rest(l: LibraryModel, id: i64)
    ensures
        delete_tag_result(l, id) is Ok <==> crate::tree::delete_result(l.catalog.tags, id) is Ok,
        delete_tag_result(l, id) matches Ok(r) ==> {
            &&& r.catalog.tags == crate::tree::delete_result(l.catalog.tags, id)->Ok_0
            &&& r.catalog.categories == l.catalog.categories
            &&& r.catalog.tag_seq == l.catalog.tag_seq
            &&& r.catalog.category_seq == l.catalog.category_seq
            &&& r.music == l.music
            &&& r.clips == l.clips
            &&& r.candidates == l.candidates
            &&& r.duration_column == l.duration_column
        },
{
}

} // verus!
