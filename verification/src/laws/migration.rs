//! Laws of bringing older databases up to date.
use vstd::prelude::*;

use crate::catalog::category;
use crate::catalog::has_category;
use crate::catalog::has_tag;
use crate::catalog::CatalogModel;
use crate::catalog::siblings_unique;
use crate::catalog::TagModel;
use crate::failure::ErrorModel;
use crate::failure::Failure;
use crate::failure::Rule;
use crate::laws::naming::law_name_gets_one_tag;
use crate::laws::standard::home_for;
use crate::laws::standard::law_library_starts_with_the_standard_tags;
use crate::laws::standard::law_standard_names_have_homes;
use crate::legacy::legacy_catalog;
use crate::legacy::LegacyTagModel;
use crate::library::paths_distinct;
use crate::library::LibraryModel;
use crate::library::MusicModel;
use crate::links::lemma_linked;
use crate::links::linked;
use crate::links::links_wf;
use crate::links::LinkModel;
use crate::migrate::clip_stage;
use crate::migrate::json_strings;
use crate::migrate::legacy_stage;
use crate::migrate::lemma_clip_stage;
use crate::migrate::lemma_migrated;
use crate::migrate::lemma_music_stage;
use crate::migrate::lemma_names_migrated;
use crate::migrate::lemma_source_stage;
use crate::migrate::migrated;
use crate::migrate::migration_home;
use crate::migrate::migration_steps;
use crate::migrate::music_stage;
use crate::migrate::names_in;
use crate::migrate::names_migrated;
use crate::migrate::source_stage;
use crate::migrate::texts_migrated;
use crate::migrate::RawTagsModel;
use crate::migrate::TablesModel;
use crate::naming::choice;
use crate::naming::has_tag_named;
use crate::naming::is_choice;
use crate::naming::lemma_choice_exists;
use crate::naming::lemma_choice_unique;
use crate::naming::lemma_with_tag_named;
use crate::naming::preferred;
use crate::naming::with_tag_named;
use crate::schema::recorded_schema;
use crate::text::is_blank;
use crate::text::nocase;
use crate::text::trimmed;

verus! {

/// Whether `d` is `c` with tags behind those that were there, each under a name that no tag
/// before it has, and with every category of `c` as it was.
pub open spec fn grows(c: CatalogModel, d: CatalogModel) -> bool {
    &&& c.tags.len() <= d.tags.len()
    &&& forall|i: int| 0 <= i < c.tags.len() ==> #[trigger] d.tags[i] == c.tags[i]
    &&& forall|i: int, j: int|
        c.tags.len() <= i < d.tags.len() && 0 <= j < i ==> nocase((#[trigger] d.tags[i]).name)
            != nocase((#[trigger] d.tags[j]).name)
    &&& forall|x: i64| #[trigger]
        has_category(c.categories, x) ==> has_category(d.categories, x) && category(
            d.categories,
            x,
        ) == category(c.categories, x)
}

proof fn lemma_grows_further(c: CatalogModel, d: CatalogModel, e: CatalogModel)
    requires
        grows(c, d),
        grows(d, e),
    ensures
        grows(c, e),
{
    assert forall|i: int| 0 <= i < c.tags.len() implies #[trigger] e.tags[i] == c.tags[i] by {
        assert(d.tags[i] == c.tags[i]);
    }
    assert forall|i: int, j: int| c.tags.len() <= i < e.tags.len() && 0 <= j < i implies nocase(
        (#[trigger] e.tags[i]).name,
    ) != nocase((#[trigger] e.tags[j]).name) by {
        if i < d.tags.len() {
            assert(e.tags[i] == d.tags[i] && e.tags[j] == d.tags[j]);
        }
    }
    assert forall|x: i64| #[trigger] has_category(c.categories, x) implies has_category(
        e.categories,
        x,
    ) && category(e.categories, x) == category(c.categories, x) by {
        assert(has_category(d.categories, x));
    }
}

/// A name that gets a tag lets the catalog grow.
proof fn lemma_grows_by_a_name(c: CatalogModel, name: Seq<char>, now: i64)
    requires
        c.wf(),
    ensures
        grows(c, with_tag_named(c, name, migration_home(name), now, migration_steps()).0),
{
    let home = migration_home(name);
    let (d, r) = with_tag_named(c, name, home, now, migration_steps());
    lemma_with_tag_named(c, name, home, now, migration_steps());
    assert forall|i: int| 0 <= i < c.tags.len() implies #[trigger] d.tags[i] == c.tags[i] by {
        assert(d.tags.take(c.tags.len() as int)[i] == d.tags[i]);
    }
    assert forall|i: int, j: int| c.tags.len() <= i < d.tags.len() && 0 <= j < i implies nocase(
        (#[trigger] d.tags[i]).name,
    ) != nocase((#[trigger] d.tags[j]).name) by {
        assert(d.tags[j] == c.tags[j]);
        assert(nocase(c.tags[j].name) != nocase(name));
    }
}

/// A name stands for the tag it stood for, once a catalog has grown.
pub proof fn law_name_stands_for_its_tag_still(c: CatalogModel, d: CatalogModel, name: Seq<char>)
    requires
        c.wf(),
        d.wf(),
        grows(c, d),
        exists|i: int|
            0 <= i < c.tags.len() && nocase((#[trigger] c.tags[i]).name) == nocase(name),
    ensures
        choice(d, name) == choice(c, name),
        choice(d, name) is Some,
{
    assert(has_tag_named(c.tags, name));
    let i = lemma_choice_exists(c, name);
    assert(d.tags[i] == c.tags[i]);
    assert forall|j: int|
        0 <= j < d.tags.len() && nocase((#[trigger] d.tags[j]).name) == nocase(
            name,
        ) implies preferred(d, d.tags[i], d.tags[j]) by {
        if j >= c.tags.len() {
            assert(nocase(d.tags[j].name) != nocase(d.tags[i].name));
        } else {
            assert(d.tags[j] == c.tags[j]);
            assert(preferred(c, c.tags[i], c.tags[j]));
            assert(has_category(c.categories, c.tags[i].category_id));
            assert(has_category(c.categories, c.tags[j].category_id));
        }
    }
    assert(is_choice(d, name, i));
    lemma_choice_unique(d, name, i);
}

/// What comes of the names of one owner.
proof fn lemma_names_of_one(
    c: CatalogModel,
    links: Seq<LinkModel>,
    owner: Seq<char>,
    names: Seq<Seq<char>>,
    now: i64,
)
    requires
        c.wf(),
        links_wf(c.tags, links),
    ensures
        ({
            let s = names_migrated(c, links, owner, names, now);
            &&& s.catalog.wf()
            &&& grows(c, s.catalog)
            &&& s.error is None ==> forall|k: int|
                0 <= k < names.len() && !is_blank(#[trigger] names[k]) ==> has_tag_named(
                    s.catalog.tags,
                    trimmed(names[k]),
                )
            &&& s.error is None ==> forall|l: LinkModel| #[trigger]
                s.links.contains(l) <==> links.contains(l) || (l.owner == owner && exists|k: int|
                    0 <= k < names.len() && !is_blank(#[trigger] names[k]) && choice(
                        s.catalog,
                        trimmed(names[k]),
                    ) == Some(l.tag_id))
        }),
    decreases names.len(),
{
    let s = names_migrated(c, links, owner, names, now);
    lemma_names_migrated(c, links, owner, names, now);
    if names.len() > 0 {
        let rest = names.drop_first();
        if is_blank(names[0]) {
            lemma_names_of_one(c, links, owner, rest, now);
            if s.error is None {
                assert forall|k: int| 0 <= k < names.len() && !is_blank(
                    #[trigger] names[k],
                ) implies has_tag_named(s.catalog.tags, trimmed(names[k])) by {
                    assert(rest[k - 1] == names[k]);
                }
                assert forall|l: LinkModel| #[trigger] s.links.contains(l) <==> links.contains(l)
                    || (l.owner == owner && exists|k: int|
                    0 <= k < names.len() && !is_blank(#[trigger] names[k]) && choice(
                        s.catalog,
                        trimmed(names[k]),
                    ) == Some(l.tag_id)) by {
                    lemma_shifted(s.catalog, names, l.tag_id);
                }
            }
        } else {
            let n = trimmed(names[0]);
            let (d, r) = with_tag_named(c, n, migration_home(n), now, migration_steps());
            lemma_with_tag_named(c, n, migration_home(n), now, migration_steps());
            lemma_grows_by_a_name(c, n, now);
            assert(links_wf(d.tags, links));
            if let Ok(id) = r {
                let more = linked(links, owner, id);
                lemma_linked(d.tags, links, owner, id);
                lemma_names_of_one(d, more, owner, rest, now);
                lemma_grows_further(c, d, s.catalog);
                assert(exists|i: int|
                    0 <= i < d.tags.len() && nocase((#[trigger] d.tags[i]).name) == nocase(n));
                law_name_stands_for_its_tag_still(d, s.catalog, n);
                if s.error is None {
                    assert forall|k: int| 0 <= k < names.len() && !is_blank(
                        #[trigger] names[k],
                    ) implies has_tag_named(s.catalog.tags, trimmed(names[k])) by {
                        if k > 0 {
                            assert(rest[k - 1] == names[k]);
                        }
                    }
                    assert forall|l: LinkModel| #[trigger] s.links.contains(l) <==> links.contains(
                        l,
                    ) || (l.owner == owner && exists|k: int|
                        0 <= k < names.len() && !is_blank(#[trigger] names[k]) && choice(
                            s.catalog,
                            trimmed(names[k]),
                        ) == Some(l.tag_id)) by {
                        lemma_shifted(s.catalog, names, l.tag_id);
                        assert(more.contains(l) <==> links.contains(l) || l == (LinkModel {
                            owner,
                            tag_id: id,
                        }));
                    }
                }
            }
        }
    } else {
        assert forall|l: LinkModel| #[trigger] s.links.contains(l) <==> links.contains(l) || (l.owner
            == owner && exists|k: int|
            0 <= k < names.len() && !is_blank(#[trigger] names[k]) && choice(
                s.catalog,
                trimmed(names[k]),
            ) == Some(l.tag_id)) by {}
    }
}

/// What the first of some names adds to the others.
proof fn lemma_shifted(c: CatalogModel, names: Seq<Seq<char>>, id: i64)
    requires
        names.len() > 0,
    ensures
        (exists|k: int|
            0 <= k < names.len() && !is_blank(#[trigger] names[k]) && choice(c, trimmed(names[k]))
                == Some(id)) <==> (!is_blank(names[0]) && choice(c, trimmed(names[0])) == Some(id))
            || (exists|k: int|
            0 <= k < names.drop_first().len() && !is_blank(#[trigger] names.drop_first()[k])
                && choice(c, trimmed(names.drop_first()[k])) == Some(id)),
{
    let rest = names.drop_first();
    if exists|k: int|
        0 <= k < names.len() && !is_blank(#[trigger] names[k]) && choice(c, trimmed(names[k]))
            == Some(id) {
        let k = choose|k: int|
            0 <= k < names.len() && !is_blank(#[trigger] names[k]) && choice(c, trimmed(names[k]))
                == Some(id);
        if k > 0 {
            assert(rest[k - 1] == names[k]);
        }
    }
    if exists|k: int|
        0 <= k < rest.len() && !is_blank(#[trigger] rest[k]) && choice(c, trimmed(rest[k])) == Some(
            id,
        ) {
        let k = choose|k: int|
            0 <= k < rest.len() && !is_blank(#[trigger] rest[k]) && choice(c, trimmed(rest[k]))
                == Some(id);
        assert(names[k + 1] == rest[k]);
    }
}

/// The names that a text holds: the strings of a JSON list, and none where it is no such list.
pub open spec fn names_held(text: Seq<char>) -> Seq<Seq<char>> {
    json_strings(text).unwrap_or(Seq::empty())
}

/// Whether the text of the row `r` holds a name, not blank, that stands for the tag `id`.
pub open spec fn row_names(c: CatalogModel, row: RawTagsModel, id: i64) -> bool {
    exists|n: int|
        0 <= n < names_held(row.text).len() && !is_blank(#[trigger] names_held(row.text)[n])
            && choice(c, trimmed(names_held(row.text)[n])) == Some(id)
}

/// Once texts were read, every owner carries the tags that every one of their names stands
/// for, whichever row it stands in; every name that is not blank stands for a tag, and nothing
/// else is carried but what was before.
pub proof fn law_names_of_all_rows_are_carried(
    c: CatalogModel,
    links: Seq<LinkModel>,
    rows: Seq<RawTagsModel>,
    now: i64,
)
    requires
        c.wf(),
        links_wf(c.tags, links),
        texts_migrated(c, links, rows, now).error is None,
    ensures
        ({
            let s = texts_migrated(c, links, rows, now);
            &&& s.catalog.wf()
            &&& grows(c, s.catalog)
            &&& forall|r: int, n: int|
                #![trigger names_held(rows[r].text)[n]]
                0 <= r < rows.len() && 0 <= n < names_held(rows[r].text).len() && !is_blank(
                    names_held(rows[r].text)[n],
                ) ==> choice(s.catalog, trimmed(names_held(rows[r].text)[n])) is Some
            &&& forall|l: LinkModel| #[trigger]
                s.links.contains(l) <==> links.contains(l) || exists|r: int|
                    0 <= r < rows.len() && (#[trigger] rows[r]).owner == l.owner && row_names(
                        s.catalog,
                        rows[r],
                        l.tag_id,
                    )
        }),
    decreases rows.len(),
{
    let s = texts_migrated(c, links, rows, now);
    if rows.len() == 0 {
        assert forall|l: LinkModel| #[trigger] s.links.contains(l) <==> links.contains(l) || exists|
            r: int,
        |
            0 <= r < rows.len() && (#[trigger] rows[r]).owner == l.owner && row_names(
                s.catalog,
                rows[r],
                l.tag_id,
            ) by {}
    } else {
        let names = names_in(rows[0].text);
        assert(names == names_held(rows[0].text));
        let one = names_migrated(c, links, rows[0].owner, names, now);
        let rest = rows.drop_first();
        lemma_names_of_one(c, links, rows[0].owner, names, now);
        lemma_names_migrated(c, links, rows[0].owner, names, now);
        law_names_of_all_rows_are_carried(one.catalog, one.links, rest, now);
        lemma_grows_further(c, one.catalog, s.catalog);
        assert forall|n: int| 0 <= n < names.len() && !is_blank(#[trigger] names[n]) implies choice(
            s.catalog,
            trimmed(names[n]),
        ) is Some && choice(s.catalog, trimmed(names[n])) == choice(
            one.catalog,
            trimmed(names[n]),
        ) by {
            assert(has_tag_named(one.catalog.tags, trimmed(names[n])));
            law_name_stands_for_its_tag_still(one.catalog, s.catalog, trimmed(names[n]));
        }
        assert forall|r: int, n: int|
            #![trigger names_held(rows[r].text)[n]]
            0 <= r < rows.len() && 0 <= n < names_held(rows[r].text).len() && !is_blank(
                names_held(rows[r].text)[n],
            ) implies choice(s.catalog, trimmed(names_held(rows[r].text)[n])) is Some by {
            if r > 0 {
                assert(rest[r - 1] == rows[r]);
                assert(!is_blank(names_held(rest[r - 1].text)[n]));
            } else {
                assert(!is_blank(names[n]));
            }
        }
        assert forall|l: LinkModel| #[trigger] s.links.contains(l) <==> links.contains(l) || exists|
            r: int,
        |
            0 <= r < rows.len() && (#[trigger] rows[r]).owner == l.owner && row_names(
                s.catalog,
                rows[r],
                l.tag_id,
            ) by {
            let here = exists|k: int|
                0 <= k < names.len() && !is_blank(#[trigger] names[k]) && choice(
                    one.catalog,
                    trimmed(names[k]),
                ) == Some(l.tag_id);
            assert(one.links.contains(l) <==> links.contains(l) || (l.owner == rows[0].owner
                && here));
            assert(here <==> row_names(s.catalog, rows[0], l.tag_id)) by {
                if here {
                    let k = choose|k: int|
                        0 <= k < names.len() && !is_blank(#[trigger] names[k]) && choice(
                            one.catalog,
                            trimmed(names[k]),
                        ) == Some(l.tag_id);
                    assert(!is_blank(names_held(rows[0].text)[k]));
                }
                if row_names(s.catalog, rows[0], l.tag_id) {
                    let k = choose|k: int|
                        0 <= k < names_held(rows[0].text).len() && !is_blank(
                            #[trigger] names_held(rows[0].text)[k],
                        ) && choice(s.catalog, trimmed(names_held(rows[0].text)[k])) == Some(
                            l.tag_id,
                        );
                    assert(!is_blank(names[k]));
                }
            }
            if exists|r: int|
                0 <= r < rest.len() && (#[trigger] rest[r]).owner == l.owner && row_names(
                    s.catalog,
                    rest[r],
                    l.tag_id,
                ) {
                let r = choose|r: int|
                    0 <= r < rest.len() && (#[trigger] rest[r]).owner == l.owner && row_names(
                        s.catalog,
                        rest[r],
                        l.tag_id,
                    );
                assert(rows[r + 1] == rest[r]);
            }
            if exists|r: int|
                0 <= r < rows.len() && (#[trigger] rows[r]).owner == l.owner && row_names(
                    s.catalog,
                    rows[r],
                    l.tag_id,
                ) {
                let r = choose|r: int|
                    0 <= r < rows.len() && (#[trigger] rows[r]).owner == l.owner && row_names(
                        s.catalog,
                        rows[r],
                        l.tag_id,
                    );
                if r > 0 {
                    assert(rest[r - 1] == rows[r]);
                } else {
                    assert(one.links.contains(l));
                }
            }
            if l.owner == rows[0].owner && row_names(s.catalog, rows[0], l.tag_id) {
                assert(rows[0].owner == l.owner);
            }
        }
    }
}

/// How many names the texts of `rows` hold.
pub open spec fn name_count(rows: Seq<RawTagsModel>) -> nat
    decreases rows.len(),
{
    if rows.len() == 0 {
        0
    } else {
        names_held(rows[0].text).len() + name_count(rows.drop_first())
    }
}

/// Names can be read as long as there are identifiers for as many new tags as there are names.
proof fn lemma_names_can_be_read(
    c: CatalogModel,
    links: Seq<LinkModel>,
    owner: Seq<char>,
    names: Seq<Seq<char>>,
    now: i64,
)
    requires
        c.wf(),
        links_wf(c.tags, links),
    ensures
        ({
            let s = names_migrated(c, links, owner, names, now);
            &&& c.tag_seq + names.len() <= i64::MAX && c.category_seq + names.len() <= i64::MAX
                ==> s.error is None
            &&& s.catalog.tag_seq <= c.tag_seq + names.len()
            &&& s.catalog.category_seq <= c.category_seq + names.len()
        }),
    decreases names.len(),
{
    if names.len() > 0 {
        let rest = names.drop_first();
        if is_blank(names[0]) {
            lemma_names_can_be_read(c, links, owner, rest, now);
        } else {
            let n = trimmed(names[0]);
            let (d, r) = with_tag_named(c, n, migration_home(n), now, migration_steps());
            law_name_gets_one_tag(c, n, migration_home(n), now, migration_steps());
            lemma_with_tag_named(c, n, migration_home(n), now, migration_steps());
            if let Ok(id) = r {
                lemma_linked(d.tags, links, owner, id);
                lemma_names_can_be_read(d, linked(links, owner, id), owner, rest, now);
            }
        }
    }
}

/// Texts can be read as long as there are identifiers for as many new tags as there are names.
pub proof fn law_texts_can_be_read(
    c: CatalogModel,
    links: Seq<LinkModel>,
    rows: Seq<RawTagsModel>,
    now: i64,
)
    requires
        c.wf(),
        links_wf(c.tags, links),
    ensures
        ({
            let s = texts_migrated(c, links, rows, now);
            &&& c.tag_seq + name_count(rows) <= i64::MAX && c.category_seq + name_count(rows)
                <= i64::MAX ==> s.error is None
            &&& s.catalog.tag_seq <= c.tag_seq + name_count(rows)
            &&& s.catalog.category_seq <= c.category_seq + name_count(rows)
        }),
    decreases rows.len(),
{
    if rows.len() > 0 {
        let names = names_in(rows[0].text);
        assert(names == names_held(rows[0].text));
        let one = names_migrated(c, links, rows[0].owner, names, now);
        lemma_names_can_be_read(c, links, rows[0].owner, names, now);
        lemma_names_migrated(c, links, rows[0].owner, names, now);
        if one.error is None {
            law_texts_can_be_read(one.catalog, one.links, rows.drop_first(), now);
        }
    }
}

/// Whether `t` is a tag as it is made for the name `name`: under that name, at the root of its
/// home.
pub open spec fn is_made_for(c: CatalogModel, t: TagModel, name: Seq<char>, now: i64) -> bool {
    &&& t.name == name
    &&& t.parent_id is None
    &&& t.created_at == now
    &&& has_category(c.categories, t.category_id)
    &&& nocase(category(c.categories, t.category_id).name) == nocase(home_for(name))
}

/// Whether `t` is made for one of `names` that is not blank.
pub open spec fn is_made_for_one(
    c: CatalogModel,
    t: TagModel,
    names: Seq<Seq<char>>,
    now: i64,
) -> bool {
    exists|k: int|
        0 <= k < names.len() && !is_blank(names[k]) && is_made_for(
            c,
            t,
            trimmed(#[trigger] names[k]),
            now,
        )
}

/// What comes of the names of one owner that stood for no tag.
proof fn lemma_tags_made_for_one(
    c: CatalogModel,
    links: Seq<LinkModel>,
    owner: Seq<char>,
    names: Seq<Seq<char>>,
    now: i64,
)
    requires
        c.wf(),
        links_wf(c.tags, links),
    ensures
        ({
            let d = names_migrated(c, links, owner, names, now).catalog;
            forall|i: int|
                c.tags.len() <= i < d.tags.len() ==> is_made_for_one(d, #[trigger] d.tags[i], names, now)
        }),
    decreases names.len(),
{
    let d = names_migrated(c, links, owner, names, now).catalog;
    if names.len() > 0 {
        let rest = names.drop_first();
        if is_blank(names[0]) {
            lemma_tags_made_for_one(c, links, owner, rest, now);
            assert forall|i: int| c.tags.len() <= i < d.tags.len() implies is_made_for_one(
                d,
                #[trigger] d.tags[i],
                names,
                now,
            ) by {
                let k = choose|k: int|
                    0 <= k < rest.len() && !is_blank(rest[k]) && is_made_for(
                        d,
                        d.tags[i],
                        trimmed(#[trigger] rest[k]),
                        now,
                    );
                assert(names[k + 1] == rest[k]);
            }
        } else {
            let n = trimmed(names[0]);
            let (e, r) = with_tag_named(c, n, migration_home(n), now, migration_steps());
            law_name_gets_one_tag(c, n, migration_home(n), now, migration_steps());
            lemma_with_tag_named(c, n, migration_home(n), now, migration_steps());
            law_standard_names_have_homes(n);
            let m = c.tags.len() as int;
            if e.tags.len() > m {
                assert(e.tags[m] == e.tags.last());
                assert(has_category(e.categories, e.tags[m].category_id));
                assert(is_made_for(e, e.tags[m], n, now));
            }
            if let Ok(id) = r {
                let more = linked(links, owner, id);
                lemma_linked(e.tags, links, owner, id);
                lemma_names_of_one(e, more, owner, rest, now);
                lemma_tags_made_for_one(e, more, owner, rest, now);
                assert forall|i: int| c.tags.len() <= i < d.tags.len() implies is_made_for_one(
                    d,
                    #[trigger] d.tags[i],
                    names,
                    now,
                ) by {
                    if i < e.tags.len() {
                        assert(d.tags[i] == e.tags[i]);
                        assert(is_made_for(d, d.tags[i], trimmed(names[0]), now));
                    } else {
                        let k = choose|k: int|
                            0 <= k < rest.len() && !is_blank(rest[k]) && is_made_for(
                                d,
                                d.tags[i],
                                trimmed(#[trigger] rest[k]),
                                now,
                            );
                        assert(names[k + 1] == rest[k]);
                    }
                }
            } else {
                assert(e.tags.len() == m) by {
                    if e.tags.len() > m {
                        assert(has_tag_named(e.tags, n)) by {
                            assert(nocase(e.tags[m].name) == nocase(n));
                        }
                    }
                }
            }
        }
    }
}

/// Whether `t` is made for a name, not blank, that a text holds.
pub open spec fn is_asked_for(
    c: CatalogModel,
    t: TagModel,
    rows: Seq<RawTagsModel>,
    now: i64,
) -> bool {
    exists|r: int, n: int|
        0 <= r < rows.len() && 0 <= n < names_held(rows[r].text).len() && !is_blank(
            names_held(rows[r].text)[n],
        ) && is_made_for(c, t, trimmed(#[trigger] names_held(rows[r].text)[n]), now)
}

/// Tags are made for names only that are not blank, each under its name, trimmed, at the root
/// of its home, behind the tags that are there.
pub proof fn law_tags_are_made_for_names_in_texts_only(
    c: CatalogModel,
    links: Seq<LinkModel>,
    rows: Seq<RawTagsModel>,
    now: i64,
)
    requires
        c.wf(),
        links_wf(c.tags, links),
        texts_migrated(c, links, rows, now).error is None,
    ensures
        ({
            let d = texts_migrated(c, links, rows, now).catalog;
            &&& grows(c, d)
            &&& forall|i: int|
                c.tags.len() <= i < d.tags.len() ==> is_asked_for(d, #[trigger] d.tags[i], rows, now)
        }),
    decreases rows.len(),
{
    let d = texts_migrated(c, links, rows, now).catalog;
    law_names_of_all_rows_are_carried(c, links, rows, now);
    if rows.len() > 0 {
        let rest = rows.drop_first();
        let names = names_in(rows[0].text);
        assert(names == names_held(rows[0].text));
        let one = names_migrated(c, links, rows[0].owner, names, now);
        lemma_names_of_one(c, links, rows[0].owner, names, now);
        lemma_names_migrated(c, links, rows[0].owner, names, now);
        lemma_tags_made_for_one(c, links, rows[0].owner, names, now);
        law_tags_are_made_for_names_in_texts_only(one.catalog, one.links, rest, now);
        assert forall|i: int| c.tags.len() <= i < d.tags.len() implies is_asked_for(
            d,
            #[trigger] d.tags[i],
            rows,
            now,
        ) by {
            if i < one.catalog.tags.len() {
                assert(d.tags[i] == one.catalog.tags[i]);
                let k = choose|k: int|
                    0 <= k < names.len() && !is_blank(names[k]) && is_made_for(
                        one.catalog,
                        one.catalog.tags[i],
                        trimmed(#[trigger] names[k]),
                        now,
                    );
                assert(is_made_for(d, d.tags[i], trimmed(names_held(rows[0].text)[k]), now));
            } else {
                let (r, n) = choose|r: int, n: int|
                    0 <= r < rest.len() && 0 <= n < names_held(rest[r].text).len() && !is_blank(
                        names_held(rest[r].text)[n],
                    ) && is_made_for(
                        d,
                        d.tags[i],
                        trimmed(#[trigger] names_held(rest[r].text)[n]),
                        now,
                    );
                assert(rows[r + 1] == rest[r]);
                assert(is_made_for(d, d.tags[i], trimmed(names_held(rows[r + 1].text)[n]), now));
            }
        }
    }
}

/// How many names the texts that are left hold.
pub open spec fn names_left(texts: Option<Seq<RawTagsModel>>) -> nat {
    match texts {
        Some(rows) => name_count(rows),
        None => 0,
    }
}

/// Whether a text of the owner names the tag.
pub open spec fn is_told(c: CatalogModel, rows: Seq<RawTagsModel>, l: LinkModel) -> bool {
    exists|r: int|
        0 <= r < rows.len() && (#[trigger] rows[r]).owner == l.owner && row_names(
            c,
            rows[r],
            l.tag_id,
        )
}

/// What owners carry once their texts were read: what they carried, and what the names in
/// their texts stand for. Where there are no texts, all is as it was.
pub open spec fn texts_are_read(
    c: CatalogModel,
    texts: Option<Seq<RawTagsModel>>,
    before: Seq<LinkModel>,
    after: Seq<LinkModel>,
) -> bool {
    match texts {
        Some(rows) => forall|l: LinkModel| #[trigger]
            after.contains(l) <==> before.contains(l) || is_told(c, rows, l),
        None => after == before,
    }
}

/// What names stood for in a catalog they stand for once it has grown.
proof fn lemma_texts_are_read_still(
    c: CatalogModel,
    d: CatalogModel,
    rows: Seq<RawTagsModel>,
    before: Seq<LinkModel>,
    after: Seq<LinkModel>,
)
    requires
        c.wf(),
        d.wf(),
        grows(c, d) || (c.tags.len() == 0 && d.wf()),
        texts_are_read(c, Some(rows), before, after),
        forall|r: int, n: int|
            #![trigger names_held(rows[r].text)[n]]
            0 <= r < rows.len() && 0 <= n < names_held(rows[r].text).len() && !is_blank(
                names_held(rows[r].text)[n],
            ) ==> choice(c, trimmed(names_held(rows[r].text)[n])) is Some,
    ensures
        texts_are_read(d, Some(rows), before, after),
{
    assert forall|r: int, id: i64| 0 <= r < rows.len() implies row_names(
        c,
        #[trigger] rows[r],
        id,
    ) == #[trigger] row_names(d, rows[r], id) by {
        let names = names_held(rows[r].text);
        assert forall|n: int| 0 <= n < names.len() && !is_blank(#[trigger] names[n]) implies choice(
            c,
            trimmed(names[n]),
        ) == choice(d, trimmed(names[n])) by {
            assert(!is_blank(names_held(rows[r].text)[n]));
            assert(has_tag_named(c.tags, trimmed(names[n])));
            law_name_stands_for_its_tag_still(c, d, trimmed(names[n]));
        }
        if row_names(c, rows[r], id) {
            let n = choose|n: int|
                0 <= n < names_held(rows[r].text).len() && !is_blank(
                    #[trigger] names_held(rows[r].text)[n],
                ) && choice(c, trimmed(names_held(rows[r].text)[n])) == Some(id);
            assert(!is_blank(names[n]));
        }
        if row_names(d, rows[r], id) {
            let n = choose|n: int|
                0 <= n < names_held(rows[r].text).len() && !is_blank(
                    #[trigger] names_held(rows[r].text)[n],
                ) && choice(d, trimmed(names_held(rows[r].text)[n])) == Some(id);
            assert(!is_blank(names[n]));
        }
    }
    assert forall|l: LinkModel| #[trigger] is_told(c, rows, l) == is_told(d, rows, l) by {
        if is_told(c, rows, l) {
            let r = choose|r: int|
                0 <= r < rows.len() && (#[trigger] rows[r]).owner == l.owner && row_names(
                    c,
                    rows[r],
                    l.tag_id,
                );
            assert(row_names(d, rows[r], l.tag_id));
        }
        if is_told(d, rows, l) {
            let r = choose|r: int|
                0 <= r < rows.len() && (#[trigger] rows[r]).owner == l.owner && row_names(
                    d,
                    rows[r],
                    l.tag_id,
                );
            assert(row_names(c, rows[r], l.tag_id) == row_names(d, rows[r], l.tag_id));
        }
    }
    assert forall|l: LinkModel| #[trigger] after.contains(l) <==> before.contains(l) || is_told(
        d,
        rows,
        l,
    ) by {
        assert(is_told(c, rows, l) == is_told(d, rows, l));
    }
}

/// Once tables are brought up to date they are recorded under the third schema, nothing is
/// left elsewhere, and every text was read. The music are as they were, but that an album
/// whose source was not told, or told as of old, is the folder's; the clips, the candidates
/// and the tags of albums are as they were.
pub proof fn law_tables_are_brought_up_to_date(t: TablesModel, now: i64)
    requires
        t.wf(),
        migrated(t, now).1 is None,
    ensures
        ({
            let r = migrated(t, now).0;
            &&& r.schema == Some("3"@)
            &&& r.legacy is None
            &&& r.music_texts is None
            &&& r.clip_texts is None
            &&& r.library.clips == t.library.clips
            &&& r.library.candidates == t.library.candidates
            &&& r.library.album_tags == t.library.album_tags
            &&& r.library.duration_column == t.library.duration_column
            &&& r.library.music.len() == t.library.music.len()
            &&& forall|i: int|
                0 <= i < t.library.music.len() ==> {
                    let (m, n) = (t.library.music[i], #[trigger] r.library.music[i]);
                    &&& n == (MusicModel { album_source: n.album_source, ..m })
                    &&& m.album_source == "legacy"@ || m.album_source == ""@ ==> n.album_source
                        == "folder"@
                    &&& m.album_source != "legacy"@ && m.album_source != ""@ ==> n.album_source
                        == m.album_source
                }
            &&& texts_are_read(
                r.library.catalog,
                t.music_texts,
                t.library.music_tags,
                r.library.music_tags,
            )
            &&& texts_are_read(
                r.library.catalog,
                t.clip_texts,
                t.library.clip_tags,
                r.library.clip_tags,
            )
            &&& t.legacy is None ==> t.library.catalog.tags.len() <= r.library.catalog.tags.len()
                && r.library.catalog.tags.take(t.library.catalog.tags.len() as int)
                == t.library.catalog.tags
        }),
{
    let r = migrated(t, now).0;
    let a = legacy_stage(t)->Ok_0;
    let b = music_stage(a, now)->Ok_0;
    let c = clip_stage(b, now)->Ok_0;
    let d = source_stage(c);
    lemma_migrated(t, now);
    lemma_music_stage(a, now);
    lemma_clip_stage(b, now);
    lemma_source_stage(c);
    reveal_strlit("");
    assert forall|i: int| 0 <= i < t.library.music.len() implies {
        let (m, n) = (t.library.music[i], #[trigger] r.library.music[i]);
        &&& n == (MusicModel { album_source: n.album_source, ..m })
        &&& m.album_source == "legacy"@ || m.album_source == ""@ ==> n.album_source == "folder"@
        &&& m.album_source != "legacy"@ && m.album_source != ""@ ==> n.album_source
            == m.album_source
    } by {
        let m = t.library.music[i];
        assert(""@ =~= Seq::<char>::empty());
        if m.album_source.len() == 0 {
            assert(m.album_source =~= ""@);
        }
    }
    let last = r.library.catalog;
    law_library_starts_with_the_standard_tags(d.library.catalog, now);
    let bc = b.library.catalog;
    let cc = c.library.catalog;
    assert(grows(bc, bc));
    assert(grows(cc, cc));
    assert(cc.tags.len() > 0 ==> last == cc);
    if let Some(rows) = b.clip_texts {
        law_names_of_all_rows_are_carried(bc, b.library.clip_tags, rows, now);
        lemma_texts_are_read_still(cc, last, rows, b.library.clip_tags, c.library.clip_tags);
    }
    assert(grows(bc, cc));
    if let Some(rows) = a.music_texts {
        law_names_of_all_rows_are_carried(a.library.catalog, a.library.music_tags, rows, now);
        if bc.tags.len() > 0 {
            assert(cc.tags.len() > 0);
        }
        lemma_texts_are_read_still(bc, last, rows, a.library.music_tags, b.library.music_tags);
    }
    assert(grows(a.library.catalog, a.library.catalog));
    assert(grows(a.library.catalog, bc));
    lemma_grows_further(a.library.catalog, bc, cc);
    assert(last.tags.take(a.library.catalog.tags.len() as int) =~= a.library.catalog.tags);
}

/// Tables without tags of old are brought up to date, as long as there are identifiers, unless
/// they were written under a schema later than the third, two tags of one name stand in one
/// place, or two music lie under one path.
pub proof fn law_tables_can_be_brought_up_to_date(t: TablesModel, now: i64)
    requires
        t.wf(),
        t.legacy is None,
        t.library.catalog.tag_seq + names_left(t.music_texts) + names_left(t.clip_texts) + 28
            <= i64::MAX,
        t.library.catalog.category_seq + names_left(t.music_texts) + names_left(t.clip_texts) + 7
            <= i64::MAX,
    ensures
        migrated(t, now).1 is None <==> recorded_schema(t.schema) <= 3 && siblings_unique(
            t.library.catalog.tags,
        ) && paths_distinct(t.library.music),
{
    let good = recorded_schema(t.schema) <= 3 && siblings_unique(t.library.catalog.tags);
    if good {
        assert(t.planted());
        let l = t.library;
        if let Some(rows) = t.music_texts {
            law_texts_can_be_read(l.catalog, l.music_tags, rows, now);
        }
        let b = music_stage(t, now)->Ok_0;
        lemma_music_stage(t, now);
        if let Some(rows) = b.clip_texts {
            law_texts_can_be_read(b.library.catalog, b.library.clip_tags, rows, now);
        }
        let c = clip_stage(b, now)->Ok_0;
        lemma_clip_stage(b, now);
        lemma_source_stage(c);
        let d = source_stage(c);
        law_library_starts_with_the_standard_tags(d.library.catalog, now);
        let (m, n) = (t.library.music, d.library.music);
        assert(paths_distinct(m) <==> paths_distinct(n)) by {
            assert(m.len() == n.len());
            assert forall|i: int| 0 <= i < m.len() implies (#[trigger] m[i]).path == n[i].path by {}
            assert forall|i: int| 0 <= i < m.len() implies m[i].path == (#[trigger] n[i]).path by {}
        }
    }
}

/// Whether a tag of the earlier schema has the identifier `id`.
pub open spec fn was_there(tags: Seq<LegacyTagModel>, id: i64) -> bool {
    exists|i: int| 0 <= i < tags.len() && (#[trigger] tags[i]).id == id
}

/// Whether links are to tags of the earlier schema only.
pub open spec fn are_to(tags: Seq<LegacyTagModel>, links: Seq<LinkModel>) -> bool {
    forall|k: int| 0 <= k < links.len() ==> was_there(tags, (#[trigger] links[k]).tag_id)
}

/// Whether all that a library refers to but tags is there: the music that clips are cut out of,
/// and the music and clips that carry tags.
pub open spec fn rows_are_there(l: LibraryModel) -> bool {
    &&& forall|k: int|
        0 <= k < l.clips.len() ==> exists|i: int|
            0 <= i < l.music.len() && #[trigger] l.music[i].id == (#[trigger] l.clips[k]).music_id
    &&& forall|k: int|
        0 <= k < l.music_tags.len() ==> exists|i: int|
            0 <= i < l.music.len() && #[trigger] l.music[i].id == (#[trigger] l.music_tags[k]).owner
    &&& forall|k: int|
        0 <= k < l.clip_tags.len() ==> exists|i: int|
            0 <= i < l.clips.len() && #[trigger] l.clips[i].id == (#[trigger] l.clip_tags[k]).owner
}

proof fn lemma_targets(
    tags: Seq<TagModel>,
    old_tags: Seq<LegacyTagModel>,
    links: Seq<LinkModel>,
)
    requires
        tags.len() == old_tags.len(),
        forall|i: int| 0 <= i < tags.len() ==> (#[trigger] tags[i]).id == old_tags[i].id,
    ensures
        crate::links::targets_exist(tags, links) <==> are_to(old_tags, links),
{
    assert forall|x: i64| #[trigger] has_tag(tags, x) <==> was_there(old_tags, x) by {
        if has_tag(tags, x) {
            let i = choose|i: int| 0 <= i < tags.len() && #[trigger] tags[i].id == x;
            assert(old_tags[i].id == x);
        }
        if was_there(old_tags, x) {
            let i = choose|i: int| 0 <= i < old_tags.len() && (#[trigger] old_tags[i]).id == x;
            assert(tags[i].id == x);
        }
    }
    assert forall|k: int| 0 <= k < links.len() implies has_tag(
        tags,
        (#[trigger] links[k]).tag_id,
    ) == was_there(old_tags, links[k].tag_id) by {}
}

/// Tags of the earlier schema take the place of the catalog where a catalog can be made of them
/// and all that is carried, and all that carries, is there. All else stays as it was.
pub proof fn law_tags_of_old_take_the_place_of_the_catalog(t: TablesModel)
    requires
        t.wf(),
        t.legacy is Some,
    ensures
        ({
            let x = t.legacy->0;
            let there = are_to(x.tags, t.library.music_tags) && are_to(x.tags, t.library.clip_tags)
                && are_to(x.tags, t.library.album_tags) && rows_are_there(t.library);
            let made = legacy_catalog(x.categories, x.tags);
            &&& legacy_stage(t) is Ok <==> made is Ok && there
            &&& made is Ok && !there ==> legacy_stage(t) == Err::<TablesModel, ErrorModel>(
                Failure::Rule(Rule::DanglingReference),
            )
            &&& legacy_stage(t) matches Ok(r) ==> r.legacy is None && r.library.catalog
                == made->Ok_0 && r.library.music == t.library.music && r.library.clips
                == t.library.clips && r.library.candidates == t.library.candidates
                && r.library.music_tags == t.library.music_tags && r.library.clip_tags
                == t.library.clip_tags && r.library.album_tags == t.library.album_tags && r.schema
                == t.schema && r.music_texts == t.music_texts && r.clip_texts == t.clip_texts
        }),
{
    let x = t.legacy->0;
    if let Ok(c) = legacy_catalog(x.categories, x.tags) {
        assert forall|i: int| 0 <= i < c.tags.len() implies (#[trigger] c.tags[i]).id
            == x.tags[i].id by {}
        lemma_targets(c.tags, x.tags, t.library.music_tags);
        lemma_targets(c.tags, x.tags, t.library.clip_tags);
        lemma_targets(c.tags, x.tags, t.library.album_tags);
        let l = crate::library_tags::with_catalog(t.library, c);
        assert(rows_are_there(t.library) <==> crate::library::clip_sources(l.music, l.clips)
            && crate::library::music_owners(l.music, l.music_tags) && crate::library::clip_owners(
            l.clips,
            l.clip_tags,
        )) by {
            let m = t.library;
            if rows_are_there(m) {
                assert forall|k: int| 0 <= k < l.clips.len() implies crate::library::has_music(
                    l.music,
                    (#[trigger] l.clips[k]).music_id,
                ) by {}
                assert forall|k: int| 0 <= k < l.music_tags.len() implies crate::library::has_music(
                    l.music,
                    (#[trigger] l.music_tags[k]).owner,
                ) by {}
                assert forall|k: int| 0 <= k < l.clip_tags.len() implies crate::library::has_clip(
                    l.clips,
                    (#[trigger] l.clip_tags[k]).owner,
                ) by {}
            }
            if crate::library::clip_sources(l.music, l.clips) && crate::library::music_owners(
                l.music,
                l.music_tags,
            ) && crate::library::clip_owners(l.clips, l.clip_tags) {
                assert forall|k: int| 0 <= k < m.clips.len() implies exists|i: int|
                    0 <= i < m.music.len() && #[trigger] m.music[i].id == (
                    #[trigger] m.clips[k]).music_id by {
                    assert(crate::library::has_music(l.music, l.clips[k].music_id));
                }
                assert forall|k: int| 0 <= k < m.music_tags.len() implies exists|i: int|
                    0 <= i < m.music.len() && #[trigger] m.music[i].id == (
                    #[trigger] m.music_tags[k]).owner by {
                    assert(crate::library::has_music(l.music, l.music_tags[k].owner));
                }
                assert forall|k: int| 0 <= k < m.clip_tags.len() implies exists|i: int|
                    0 <= i < m.clips.len() && #[trigger] m.clips[i].id == (
                    #[trigger] m.clip_tags[k]).owner by {
                    assert(crate::library::has_clip(l.clips, l.clip_tags[k].owner));
                }
            }
        }
    }
}

} // verus!
