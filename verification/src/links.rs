//! Which music, clips and albums carry which tags.
use vstd::prelude::*;

use crate::catalog::aligned;
use crate::catalog::has_tag;
use crate::catalog::models;
use crate::catalog::Catalog;
use crate::catalog::CatalogModel;
use crate::catalog::TagModel;
use crate::failure::outcome;
use crate::failure::Constraint;
use crate::failure::ErrorModel;
use crate::failure::Failure;
use crate::failure::LibraryError;
use crate::failure::Rule;
use crate::failure::Step;
use crate::naming::choice;
use crate::naming::has_tag_named;
use crate::naming::is_choice;
use crate::naming::is_stray;
use crate::naming::lemma_choice_exists;
use crate::naming::lemma_choice_unique;
use crate::naming::lemma_with_tag_named;
use crate::naming::preferred;
use crate::naming::with_tag_named;
use crate::naming::NamingSteps;
use crate::rows::lemma_filter_at;
use crate::rows::lemma_filter_has;
use crate::rows::lemma_filter_pair;
use crate::rows::lemma_filter_push;
use crate::rows::retain;
use crate::text::is_blank;
use crate::text::nocase;
use crate::text::same_text;
use crate::text::trim;
use crate::text::trimmed;
use crate::tree::uncategorized;

verus! {

/// A tag that a music, a clip or an album carries.
pub struct LinkRow {
    pub owner: String,
    pub tag_id: i64,
}

/// A tag that a music, a clip or an album carries, mathematically.
pub struct LinkModel {
    pub owner: Seq<char>,
    pub tag_id: i64,
}

impl View for LinkRow {
    type V = LinkModel;

    open spec fn view(&self) -> LinkModel {
        LinkModel { owner: self.owner@, tag_id: self.tag_id }
    }
}

impl Clone for LinkRow {
    fn clone(&self) -> (r: Self)
        ensures
            r == *self,
    {
        LinkRow { owner: self.owner.clone(), tag_id: self.tag_id }
    }
}

/// Every link is to a tag that exists.
pub open spec fn targets_exist(tags: Seq<TagModel>, links: Seq<LinkModel>) -> bool {
    forall|i: int| 0 <= i < links.len() ==> has_tag(tags, (#[trigger] links[i]).tag_id)
}

/// No link is there twice, and every link is to a tag that exists.
pub open spec fn links_wf(tags: Seq<TagModel>, links: Seq<LinkModel>) -> bool {
    &&& links.no_duplicates()
    &&& targets_exist(tags, links)
}

/// Being a link of someone other than `owner`.
pub open spec fn other_owner(owner: Seq<char>) -> spec_fn(LinkModel) -> bool {
    |l: LinkModel| l.owner != owner
}

/// Being a link to a tag other than `id`.
pub open spec fn other_target(id: i64) -> spec_fn(LinkModel) -> bool {
    |l: LinkModel| l.tag_id != id
}

/// The links with one from `owner` to the tag `tag_id` among them.
pub open spec fn linked(links: Seq<LinkModel>, owner: Seq<char>, tag_id: i64) -> Seq<LinkModel> {
    let link = LinkModel { owner, tag_id };
    if links.contains(link) {
        links
    } else {
        links.push(link)
    }
}

/// The catalog and one table of links, after some of their rows were written; and why
/// the rest were not, if they were not.
#[verifier::ext_equal]
pub struct SyncModel {
    pub catalog: CatalogModel,
    pub links: Seq<LinkModel>,
    pub error: Option<ErrorModel>,
}

/// The steps at which the identifiers can run out when a music, clip or album gets a
/// tag by its name.
pub open spec fn sync_steps() -> NamingSteps {
    NamingSteps { category: Step::CreateUncategorized, tag: Step::SaveTag }
}

/// The tables once `owner` carries the tags that `names` stand for, one after the
/// other. Names are trimmed and blank ones passed over; one that stands for no tag gets
/// a new one among the uncategorized. An owner that does not exist carries nothing.
pub open spec fn link_names(
    c: CatalogModel,
    links: Seq<LinkModel>,
    owner: Seq<char>,
    names: Seq<Seq<char>>,
    known: bool,
    now: i64,
) -> SyncModel
    decreases names.len(),
{
    if names.len() == 0 {
        SyncModel { catalog: c, links, error: None }
    } else if is_blank(names[0]) {
        link_names(c, links, owner, names.drop_first(), known, now)
    } else {
        match with_tag_named(c, trimmed(names[0]), uncategorized(), now, sync_steps()) {
            (d, Err(e)) => SyncModel { catalog: d, links, error: Some(e) },
            (d, Ok(id)) => if known {
                link_names(d, linked(links, owner, id), owner, names.drop_first(), known, now)
            } else {
                SyncModel {
                    catalog: d,
                    links,
                    error: Some(Failure::Write(Step::SaveLink, Constraint::ForeignKey)),
                }
            },
        }
    }
}

/// The links once `owner` carries the tags `ids`, one after the other; and why the rest
/// were not written, if one of them does not exist or the owner does not.
pub open spec fn link_ids(
    tags: Seq<TagModel>,
    links: Seq<LinkModel>,
    owner: Seq<char>,
    ids: Seq<i64>,
    known: bool,
) -> (Seq<LinkModel>, Option<ErrorModel>)
    decreases ids.len(),
{
    if ids.len() == 0 {
        (links, None)
    } else if !has_tag(tags, ids[0]) {
        (links, Some(Failure::Rule(Rule::ChosenTagMissing)))
    } else if !known {
        (links, Some(Failure::Write(Step::SaveLink, Constraint::ForeignKey)))
    } else {
        link_ids(tags, linked(links, owner, ids[0]), owner, ids.drop_first(), known)
    }
}

/// The tables once `owner` carries exactly the tags that `names` stand for.
pub open spec fn sync_tags_result(
    c: CatalogModel,
    links: Seq<LinkModel>,
    owner: Seq<char>,
    names: Seq<Seq<char>>,
    known: bool,
    now: i64,
) -> SyncModel {
    link_names(c, links.filter(other_owner(owner)), owner, names, known, now)
}

/// The tables once `owner` carries exactly the tags `ids`, and those that `names` stand
/// for.
pub open spec fn sync_tag_ids_result(
    c: CatalogModel,
    links: Seq<LinkModel>,
    owner: Seq<char>,
    ids: Seq<i64>,
    names: Seq<Seq<char>>,
    known: bool,
    now: i64,
) -> SyncModel {
    let (chosen, error) = link_ids(
        c.tags,
        links.filter(other_owner(owner)),
        owner,
        ids,
        known,
    );
    match error {
        Some(e) => SyncModel { catalog: c, links: chosen, error },
        None => link_names(c, chosen, owner, names, known, now),
    }
}

/// The links that satisfy `p`, for every predicate the tables are cut by.
pub proof fn lemma_links_filter(
    tags: Seq<TagModel>,
    links: Seq<LinkModel>,
    p: spec_fn(LinkModel) -> bool,
)
    requires
        links_wf(tags, links),
    ensures
        links_wf(tags, links.filter(p)),
        forall|l: LinkModel| links.filter(p).contains(l) <==> links.contains(l) && p(l),
{
    let kept = links.filter(p);
    assert forall|i: int, j: int| 0 <= i < kept.len() && 0 <= j < kept.len() && i != j implies
        kept[i] != kept[j] by {
        if i < j {
            let (a, b) = lemma_filter_pair(links, p, i, j);
        } else {
            let (a, b) = lemma_filter_pair(links, p, j, i);
        }
    }
    assert forall|i: int| 0 <= i < kept.len() implies has_tag(tags, (#[trigger] kept[i]).tag_id) by {
        let a = lemma_filter_at(links, p, i);
        assert(has_tag(tags, links[a].tag_id));
    }
    assert forall|l: LinkModel| kept.contains(l) <==> links.contains(l) && p(l) by {
        if kept.contains(l) {
            let i = choose|i: int| 0 <= i < kept.len() && kept[i] == l;
            let a = lemma_filter_at(links, p, i);
            assert(links[a] == l);
        }
        if links.contains(l) && p(l) {
            let a = choose|a: int| 0 <= a < links.len() && links[a] == l;
            let i = lemma_filter_has(links, p, a);
            assert(kept[i] == l);
        }
    }
}

pub proof fn lemma_linked(
    tags: Seq<TagModel>,
    links: Seq<LinkModel>,
    owner: Seq<char>,
    tag_id: i64,
)
    requires
        links_wf(tags, links),
        has_tag(tags, tag_id),
    ensures
        links_wf(tags, linked(links, owner, tag_id)),
        forall|l: LinkModel| #[trigger]
            linked(links, owner, tag_id).contains(l) <==> links.contains(l) || l == (LinkModel {
                owner,
                tag_id,
            }),
        linked(links, owner, tag_id).filter(other_owner(owner)) == links.filter(
            other_owner(owner),
        ),
{
    let link = LinkModel { owner, tag_id };
    if !links.contains(link) {
        let after = links.push(link);
        lemma_filter_push(links, link, other_owner(owner));
        assert forall|l: LinkModel| #[trigger] after.contains(l) <==> links.contains(l) || l
            == link by {
            if links.contains(l) {
                let i = choose|i: int| 0 <= i < links.len() && links[i] == l;
                assert(after[i] == l);
            }
            if l == link {
                assert(after[links.len() as int] == l);
            }
        }
        assert forall|i: int| 0 <= i < after.len() implies has_tag(
            tags,
            (#[trigger] after[i]).tag_id,
        ) by {
            if i < links.len() {
                assert(has_tag(tags, links[i].tag_id));
            }
        }
    }
}

pub proof fn lemma_link_ids(
    tags: Seq<TagModel>,
    links: Seq<LinkModel>,
    owner: Seq<char>,
    ids: Seq<i64>,
    known: bool,
)
    requires
        links_wf(tags, links),
    ensures
        ({
            let (after, error) = link_ids(tags, links, owner, ids, known);
            &&& links_wf(tags, after)
            &&& after.filter(other_owner(owner)) == links.filter(other_owner(owner))
            &&& error is None ==> forall|l: LinkModel| #[trigger]
                after.contains(l) <==> links.contains(l) || (l.owner == owner && ids.contains(
                    l.tag_id,
                ))
            &&& !known ==> after == links
        }),
    decreases ids.len(),
{
    let (after, error) = link_ids(tags, links, owner, ids, known);
    if ids.len() == 0 {
    } else if has_tag(tags, ids[0]) && known {
        let next = linked(links, owner, ids[0]);
        lemma_linked(tags, links, owner, ids[0]);
        lemma_link_ids(tags, next, owner, ids.drop_first(), known);
        if error is None {
            assert forall|l: LinkModel| #[trigger] after.contains(l) <==> links.contains(l) || (
            l.owner == owner && ids.contains(l.tag_id)) by {
                let rest = ids.drop_first();
                assert(next.contains(l) <==> links.contains(l) || l == (LinkModel {
                    owner,
                    tag_id: ids[0],
                }));
                if ids.contains(l.tag_id) && l.tag_id != ids[0] {
                    let k = choose|k: int| 0 <= k < ids.len() && ids[k] == l.tag_id;
                    assert(rest[k - 1] == l.tag_id);
                }
                if rest.contains(l.tag_id) {
                    let k = choose|k: int| 0 <= k < rest.len() && rest[k] == l.tag_id;
                    assert(ids[k + 1] == l.tag_id);
                }
                if l == (LinkModel { owner, tag_id: ids[0] }) {
                    assert(ids.contains(l.tag_id));
                }
            }
        }
    }
}

/// Whether `d` is `c` with tags added, each under a name that no earlier tag has, at the root
/// of the uncategorized.
pub open spec fn only_new_names(c: CatalogModel, d: CatalogModel) -> bool {
    &&& c.tags.len() <= d.tags.len()
    &&& d.tags.take(c.tags.len() as int) == c.tags
    &&& forall|i: int, j: int|
        c.tags.len() <= i < d.tags.len() && 0 <= j < i ==> nocase((#[trigger] d.tags[i]).name)
            != nocase((#[trigger] d.tags[j]).name)
    &&& forall|i: int|
        c.tags.len() <= i < d.tags.len() ==> (#[trigger] d.tags[i]).parent_id is None && d.tags[i].id
            > c.tag_seq && is_stray(d, d.tags[i])
}

/// A name stands for the tag it stood for, once tags were added under other names.
pub proof fn lemma_choice_stays(c: CatalogModel, d: CatalogModel, name: Seq<char>)
    requires
        c.wf(),
        d.wf(),
        has_tag_named(c.tags, name),
        only_new_names(c, d),
        forall|x: i64| #[trigger]
            crate::catalog::has_category(c.categories, x) ==> crate::catalog::category(
                d.categories,
                x,
            ) == crate::catalog::category(c.categories, x),
    ensures
        has_tag_named(d.tags, name),
        choice(d, name) == choice(c, name),
{
    let i = lemma_choice_exists(c, name);
    assert(d.tags.take(c.tags.len() as int)[i] == c.tags[i]);
    assert(d.tags[i] == c.tags[i]);
    assert forall|j: int|
        0 <= j < d.tags.len() && nocase((#[trigger] d.tags[j]).name) == nocase(
            name,
        ) implies preferred(d, d.tags[i], d.tags[j]) by {
        if j >= c.tags.len() {
            assert(nocase(d.tags[j].name) != nocase(d.tags[i].name));
        } else {
            assert(d.tags.take(c.tags.len() as int)[j] == c.tags[j]);
            assert(preferred(c, c.tags[i], c.tags[j]));
            assert(crate::catalog::has_category(c.categories, c.tags[i].category_id));
            assert(crate::catalog::has_category(c.categories, c.tags[j].category_id));
        }
    }
    assert(nocase(d.tags[i].name) == nocase(name));
    assert(is_choice(d, name, i));
    lemma_choice_unique(d, name, i);
}

/// Whether one of `names` is not blank and stands for the tag `id`.
pub open spec fn named_among(c: CatalogModel, names: Seq<Seq<char>>, id: i64) -> bool {
    exists|k: int|
        0 <= k < names.len() && !is_blank(#[trigger] names[k]) && choice(c, trimmed(names[k]))
            == Some(id)
}

/// What holds once `owner` was given tags by their names.
pub open spec fn names_linked(
    c: CatalogModel,
    links: Seq<LinkModel>,
    owner: Seq<char>,
    names: Seq<Seq<char>>,
    known: bool,
    s: SyncModel,
) -> bool {
    &&& s.catalog.wf()
    &&& links_wf(s.catalog.tags, s.links)
    &&& s.links.filter(other_owner(owner)) == links.filter(other_owner(owner))
    &&& only_new_names(c, s.catalog)
    &&& c.tag_seq <= s.catalog.tag_seq
    &&& forall|x: i64| #[trigger] has_tag(c.tags, x) ==> has_tag(s.catalog.tags, x)
    &&& forall|x: i64| #[trigger]
        crate::catalog::has_category(c.categories, x) ==> crate::catalog::has_category(
            s.catalog.categories,
            x,
        ) && crate::catalog::category(s.catalog.categories, x) == crate::catalog::category(
            c.categories,
            x,
        )
    &&& aligned(c.tags) ==> aligned(s.catalog.tags)
    &&& !known ==> s.links == links
    &&& s.error is None ==> forall|l: LinkModel| #[trigger]
        s.links.contains(l) <==> links.contains(l) || (l.owner == owner && named_among(
            s.catalog,
            names,
            l.tag_id,
        ))
    &&& s.error is None ==> forall|k: int|
        0 <= k < names.len() && !is_blank(#[trigger] names[k]) ==> choice(
            s.catalog,
            trimmed(names[k]),
        ) is Some
}

pub proof fn lemma_link_names(
    c: CatalogModel,
    links: Seq<LinkModel>,
    owner: Seq<char>,
    names: Seq<Seq<char>>,
    known: bool,
    now: i64,
)
    requires
        c.wf(),
        links_wf(c.tags, links),
    ensures
        names_linked(c, links, owner, names, known, link_names(c, links, owner, names, known, now)),
    decreases names.len(),
{
    let s = link_names(c, links, owner, names, known, now);
    assert(c.tags.take(c.tags.len() as int) =~= c.tags);
    if names.len() == 0 {
    } else {
        let rest = names.drop_first();
        if is_blank(names[0]) {
            lemma_link_names(c, links, owner, rest, known, now);
            if s.error is None {
                assert forall|id: i64| named_among(s.catalog, names, id) <==> named_among(
                    s.catalog,
                    rest,
                    id,
                ) by {
                    lemma_named_shift(s.catalog, names, id);
                }
                assert forall|k: int| 0 <= k < names.len() && !is_blank(#[trigger] names[k]) implies
                    choice(s.catalog, trimmed(names[k])) is Some by {
                    assert(rest[k - 1] == names[k]);
                }
            }
        } else {
            let name = trimmed(names[0]);
            let (d, r) = with_tag_named(c, name, uncategorized(), now, sync_steps());
            lemma_with_tag_named(c, name, uncategorized(), now, sync_steps());
            lemma_added_names(c, d, name);
            assert(links_wf(d.tags, links));
            match r {
                Err(e) => {},
                Ok(id) => {
                    if known {
                        let next = linked(links, owner, id);
                        lemma_linked(d.tags, links, owner, id);
                        lemma_link_names(d, next, owner, rest, known, now);
                        lemma_only_new_names_transitive(c, d, s.catalog);
                        if s.error is None {
                            lemma_choice_stays(d, s.catalog, name);
                            assert forall|l: LinkModel| #[trigger] s.links.contains(l)
                                <==> links.contains(l) || (l.owner == owner && named_among(
                                s.catalog,
                                names,
                                l.tag_id,
                            )) by {
                                lemma_named_shift(s.catalog, names, l.tag_id);
                                assert(next.contains(l) <==> links.contains(l) || l == (LinkModel {
                                    owner,
                                    tag_id: id,
                                }));
                            }
                            assert forall|k: int|
                                0 <= k < names.len() && !is_blank(#[trigger] names[k]) implies
                                choice(s.catalog, trimmed(names[k])) is Some by {
                                if k > 0 {
                                    assert(rest[k - 1] == names[k]);
                                }
                            }
                        }
                    }
                },
            }
        }
    }
}

proof fn lemma_named_shift(c: CatalogModel, names: Seq<Seq<char>>, id: i64)
    requires
        names.len() > 0,
    ensures
        named_among(c, names, id) <==> named_among(c, names.drop_first(), id) || (!is_blank(
            names[0],
        ) && choice(c, trimmed(names[0])) == Some(id)),
{
    let rest = names.drop_first();
    if named_among(c, names, id) {
        let k = choose|k: int|
            0 <= k < names.len() && !is_blank(#[trigger] names[k]) && choice(c, trimmed(names[k]))
                == Some(id);
        if k > 0 {
            assert(rest[k - 1] == names[k]);
        }
    }
    if named_among(c, rest, id) {
        let k = choose|k: int|
            0 <= k < rest.len() && !is_blank(#[trigger] rest[k]) && choice(c, trimmed(rest[k]))
                == Some(id);
        assert(names[k + 1] == rest[k]);
    }
}

proof fn lemma_added_names(c: CatalogModel, d: CatalogModel, name: Seq<char>)
    requires
        c.tags.len() <= d.tags.len() <= c.tags.len() + 1,
        d.tags.take(c.tags.len() as int) == c.tags,
        d.tags.len() > c.tags.len() ==> !has_tag_named(c.tags, name) && d.tags.last().name == name
            && d.tags.last().parent_id is None && d.tags.last().id == c.tag_seq + 1 && is_stray(
            d,
            d.tags.last(),
        ),
    ensures
        only_new_names(c, d),
{
    assert forall|i: int, j: int| c.tags.len() <= i < d.tags.len() && 0 <= j < i implies nocase(
        (#[trigger] d.tags[i]).name,
    ) != nocase((#[trigger] d.tags[j]).name) by {
        assert(d.tags.take(c.tags.len() as int)[j] == d.tags[j]);
        assert(c.tags[j].name == d.tags[j].name);
    }
}

proof fn lemma_only_new_names_transitive(c: CatalogModel, d: CatalogModel, e: CatalogModel)
    requires
        only_new_names(c, d),
        only_new_names(d, e),
        c.tag_seq <= d.tag_seq,
        d.wf(),
        forall|x: i64| #[trigger]
            crate::catalog::has_category(d.categories, x) ==> crate::catalog::category(
                e.categories,
                x,
            ) == crate::catalog::category(d.categories, x),
    ensures
        only_new_names(c, e),
{
    assert forall|j: int| 0 <= j < d.tags.len() implies d.tags[j] == #[trigger] e.tags[j] by {
        assert(e.tags.take(d.tags.len() as int)[j] == e.tags[j]);
    }
    assert forall|j: int| 0 <= j < c.tags.len() implies c.tags[j] == #[trigger] d.tags[j] by {
        assert(d.tags.take(c.tags.len() as int)[j] == d.tags[j]);
    }
    assert(e.tags.take(c.tags.len() as int) =~= c.tags);
    assert forall|i: int, j: int| c.tags.len() <= i < e.tags.len() && 0 <= j < i implies nocase(
        (#[trigger] e.tags[i]).name,
    ) != nocase((#[trigger] e.tags[j]).name) by {
        if i < d.tags.len() {
            assert(nocase(d.tags[i].name) != nocase(d.tags[j].name));
        }
    }
    assert forall|i: int| c.tags.len() <= i < e.tags.len() implies (
    #[trigger] e.tags[i]).parent_id is None && e.tags[i].id > c.tag_seq && is_stray(
        e,
        e.tags[i],
    ) by {
        if i < d.tags.len() {
            assert(d.tags[i].parent_id is None);
            assert(crate::catalog::has_category(d.categories, d.tags[i].category_id));
        }
    }
}

/// Once a music, clip or album was given its tags by name, it carries exactly the tags
/// that the names stand for, everyone else carries what they carried, and a tag was
/// made only for a name that no tag had, among the uncategorized.
pub proof fn law_sync_by_name(
    c: CatalogModel,
    links: Seq<LinkModel>,
    owner: Seq<char>,
    names: Seq<Seq<char>>,
    now: i64,
)
    requires
        c.wf(),
        links_wf(c.tags, links),
        sync_tags_result(c, links, owner, names, true, now).error is None,
    ensures
        ({
            let s = sync_tags_result(c, links, owner, names, true, now);
            &&& forall|id: i64|
                s.links.contains(LinkModel { owner, tag_id: id }) <==> named_among(
                    s.catalog,
                    names,
                    id,
                )
            &&& s.links.filter(other_owner(owner)) == links.filter(other_owner(owner))
            &&& only_new_names(c, s.catalog)
        }),
{
    let s = sync_tags_result(c, links, owner, names, true, now);
    let others = links.filter(other_owner(owner));
    lemma_links_filter(c.tags, links, other_owner(owner));
    lemma_link_names(c, others, owner, names, true, now);
    lemma_filter_twice(links, other_owner(owner));
    assert forall|id: i64| s.links.contains(LinkModel { owner, tag_id: id }) <==> named_among(
        s.catalog,
        names,
        id,
    ) by {
        let l = LinkModel { owner, tag_id: id };
        assert(!others.contains(l));
    }
}

/// A selection of a selection is that selection.
pub proof fn lemma_filter_twice<T>(s: Seq<T>, p: spec_fn(T) -> bool)
    ensures
        s.filter(p).filter(p) == s.filter(p),
{
    let kept = s.filter(p);
    assert forall|i: int| 0 <= i < kept.len() implies p(#[trigger] kept[i]) by {
        let a = lemma_filter_at(s, p, i);
    }
    crate::rows::lemma_filter_all(kept, p);
}

/// Once a music, clip or album was given tags by identifier, it carries exactly those
/// and the tags that the further names stand for; everyone else carries what they
/// carried, and a tag was made only for a name that no tag had, among the uncategorized.
pub proof fn law_sync_by_id(
    c: CatalogModel,
    links: Seq<LinkModel>,
    owner: Seq<char>,
    ids: Seq<i64>,
    names: Seq<Seq<char>>,
    now: i64,
)
    requires
        c.wf(),
        links_wf(c.tags, links),
        sync_tag_ids_result(c, links, owner, ids, names, true, now).error is None,
    ensures
        ({
            let s = sync_tag_ids_result(c, links, owner, ids, names, true, now);
            &&& forall|id: i64|
                s.links.contains(LinkModel { owner, tag_id: id }) <==> ids.contains(id)
                    || named_among(s.catalog, names, id)
            &&& s.links.filter(other_owner(owner)) == links.filter(other_owner(owner))
            &&& only_new_names(c, s.catalog)
        }),
{
    let s = sync_tag_ids_result(c, links, owner, ids, names, true, now);
    let others = links.filter(other_owner(owner));
    lemma_links_filter(c.tags, links, other_owner(owner));
    lemma_link_ids(c.tags, others, owner, ids, true);
    let chosen = link_ids(c.tags, others, owner, ids, true).0;
    lemma_link_names(c, chosen, owner, names, true, now);
    lemma_filter_twice(links, other_owner(owner));
    assert forall|id: i64| s.links.contains(LinkModel { owner, tag_id: id }) <==> ids.contains(id)
        || named_among(s.catalog, names, id) by {
        let l = LinkModel { owner, tag_id: id };
        assert(!others.contains(l));
        assert(chosen.contains(l) <==> others.contains(l) || ids.contains(id));
    }
}

/// Where every name stands for a tag already, to give them to a music, clip or album
/// leaves the catalog as it is.
pub proof fn law_known_names_make_no_tag(
    c: CatalogModel,
    links: Seq<LinkModel>,
    owner: Seq<char>,
    names: Seq<Seq<char>>,
    known: bool,
    now: i64,
)
    requires
        forall|k: int|
            0 <= k < names.len() && !is_blank(#[trigger] names[k]) ==> has_tag_named(
                c.tags,
                trimmed(names[k]),
            ),
    ensures
        link_names(c, links, owner, names, known, now).catalog == c,
    decreases names.len(),
{
    if names.len() > 0 {
        let rest = names.drop_first();
        assert forall|k: int| 0 <= k < rest.len() && !is_blank(#[trigger] rest[k]) implies
            has_tag_named(c.tags, trimmed(rest[k])) by {
            assert(rest[k] == names[k + 1]);
        }
        if is_blank(names[0]) {
            law_known_names_make_no_tag(c, links, owner, rest, known, now);
        } else {
            let name = trimmed(names[0]);
            assert(has_tag_named(c.tags, name));
            let id = choice(c, name)->0;
            law_known_names_make_no_tag(c, linked(links, owner, id), owner, rest, known, now);
        }
    }
}

/// Whether `owner` carries the tag `tag_id`.
pub fn is_linked(links: &Vec<LinkRow>, owner: &str, tag_id: i64) -> (b: bool)
    ensures
        b == models(links@).contains(LinkModel { owner: owner@, tag_id }),
{
    let ghost link = LinkModel { owner: owner@, tag_id };
    let mut i: usize = 0;
    while i < links.len()
        invariant
            i <= links@.len(),
            link == (LinkModel { owner: owner@, tag_id }),
            forall|j: int| 0 <= j < i ==> models(links@)[j] != link,
        decreases links@.len() - i,
    {
        if links[i].tag_id == tag_id && same_text(links[i].owner.as_str(), owner) {
            assert(models(links@)[i as int] == link);
            return true;
        }
        i = i + 1;
    }
    false
}

/// Lets `owner` carry the tag `tag_id`.
pub fn add_link(links: &mut Vec<LinkRow>, owner: &str, tag_id: i64)
    ensures
        models(final(links)@) == linked(models(old(links)@), owner@, tag_id),
{
    if !is_linked(links, owner, tag_id) {
        let ghost before = links@;
        links.push(LinkRow { owner: owner.to_string(), tag_id });
        proof {
            assert(models(links@) =~= linked(models(before), owner@, tag_id));
        }
    }
}

/// Drops the links of `owner`.
pub fn drop_owner(links: &mut Vec<LinkRow>, owner: &str)
    ensures
        models(final(links)@) == models(old(links)@).filter(other_owner(owner@)),
{
    let keep = |l: &LinkRow| -> (b: bool)
        ensures
            b == (l@.owner != owner@),
        { !same_text(l.owner.as_str(), owner) };
    retain(links, Ghost(other_owner(owner@)), keep);
}

/// Drops the links to the tag `id`.
pub fn drop_target(links: &mut Vec<LinkRow>, id: i64)
    ensures
        models(final(links)@) == models(old(links)@).filter(other_target(id)),
{
    let keep = |l: &LinkRow| -> (b: bool)
        ensures
            b == (l@.tag_id != id),
        { l.tag_id != id };
    retain(links, Ghost(other_target(id)), keep);
}

/// Lets `owner` carry the tags that `names` stand for, one after the other.
fn add_named(
    catalog: &mut Catalog,
    links: &mut Vec<LinkRow>,
    owner: &str,
    names: &Vec<String>,
    known: bool,
    now: i64,
) -> (r: Result<(), LibraryError>)
    requires
        old(catalog)@.wf(),
        links_wf(old(catalog)@.tags, models(old(links)@)),
    ensures
        final(catalog)@.wf(),
        ({
            let s = link_names(
                old(catalog)@,
                models(old(links)@),
                owner@,
                models(names@),
                known,
                now,
            );
            &&& final(catalog)@ == s.catalog
            &&& models(final(links)@) == s.links
            &&& outcome(r) == match s.error {
                None => Ok::<(), ErrorModel>(()),
                Some(e) => Err(e),
            }
        }),
{
    let ghost start = link_names(catalog@, models(links@), owner@, models(names@), known, now);
    let ghost m = models(names@);
    let mut i: usize = 0;
    proof {
        assert(m.skip(0) =~= m);
    }
    while i < names.len()
        invariant
            i <= names@.len(),
            m == models(names@),
            catalog@.wf(),
            links_wf(catalog@.tags, models(links@)),
            start == link_names(
                old(catalog)@,
                models(old(links)@),
                owner@,
                m,
                known,
                now,
            ),
            start == link_names(
                catalog@,
                models(links@),
                owner@,
                m.skip(i as int),
                known,
                now,
            ),
        decreases names@.len() - i,
    {
        proof {
            assert(m.skip(i as int).drop_first() =~= m.skip(i + 1));
            assert(m.skip(i as int)[0] == m[i as int]);
        }
        let name = trim(names[i].as_str());
        if !name.as_str().is_empty() {
            let steps = NamingSteps { category: Step::CreateUncategorized, tag: Step::SaveTag };
            let ghost before = catalog@;
            proof {
                lemma_with_tag_named(before, name@, uncategorized(), now, steps);
            }
            match catalog.find_or_add_tag(name.as_str(), "未分类", now, steps) {
                Err(e) => {
                    return Err(e);
                },
                Ok(id) => {
                    if !known {
                        return Err(Failure::Write(Step::SaveLink, Constraint::ForeignKey));
                    }
                    proof {
                        lemma_linked(catalog@.tags, models(links@), owner@, id);
                    }
                    add_link(links, owner, id);
                },
            }
        }
        i = i + 1;
    }
    Ok(())
}

/// Lets `owner` carry exactly the tags that `tags` stand for. `known` says whether the
/// owner exists.
pub fn sync_tags(
    catalog: &mut Catalog,
    links: &mut Vec<LinkRow>,
    owner: &str,
    tags: &Vec<String>,
    known: bool,
    now: i64,
) -> (r: Result<(), LibraryError>)
    requires
        old(catalog)@.wf(),
        links_wf(old(catalog)@.tags, models(old(links)@)),
    ensures
        final(catalog)@.wf(),
        ({
            let s = sync_tags_result(
                old(catalog)@,
                models(old(links)@),
                owner@,
                models(tags@),
                known,
                now,
            );
            &&& final(catalog)@ == s.catalog
            &&& models(final(links)@) == s.links
            &&& outcome(r) == match s.error {
                None => Ok::<(), ErrorModel>(()),
                Some(e) => Err(e),
            }
        }),
{
    proof {
        lemma_links_filter(catalog@.tags, models(links@), other_owner(owner@));
    }
    drop_owner(links, owner);
    add_named(catalog, links, owner, tags, known, now)
}

/// Lets `owner` carry exactly the tags `tag_ids`, and those that `new_tags` stand for.
/// `known` says whether the owner exists.
pub fn sync_tag_ids(
    catalog: &mut Catalog,
    links: &mut Vec<LinkRow>,
    owner: &str,
    tag_ids: &Vec<i64>,
    new_tags: &Vec<String>,
    known: bool,
    now: i64,
) -> (r: Result<(), LibraryError>)
    requires
        old(catalog)@.wf(),
        links_wf(old(catalog)@.tags, models(old(links)@)),
    ensures
        final(catalog)@.wf(),
        ({
            let s = sync_tag_ids_result(
                old(catalog)@,
                models(old(links)@),
                owner@,
                tag_ids@,
                models(new_tags@),
                known,
                now,
            );
            &&& final(catalog)@ == s.catalog
            &&& models(final(links)@) == s.links
            &&& outcome(r) == match s.error {
                None => Ok::<(), ErrorModel>(()),
                Some(e) => Err(e),
            }
        }),
{
    proof {
        lemma_links_filter(catalog@.tags, models(links@), other_owner(owner@));
    }
    drop_owner(links, owner);
    let ghost start = link_ids(catalog@.tags, models(links@), owner@, tag_ids@, known);
    let mut i: usize = 0;
    proof {
        assert(tag_ids@.skip(0) =~= tag_ids@);
    }
    while i < tag_ids.len()
        invariant
            i <= tag_ids@.len(),
            catalog@ == old(catalog)@,
            catalog@.wf(),
            links_wf(catalog@.tags, models(links@)),
            start == link_ids(
                old(catalog)@.tags,
                models(old(links)@).filter(other_owner(owner@)),
                owner@,
                tag_ids@,
                known,
            ),
            start == link_ids(
                catalog@.tags,
                models(links@),
                owner@,
                tag_ids@.skip(i as int),
                known,
            ),
        decreases tag_ids@.len() - i,
    {
        let id: i64 = tag_ids[i];
        proof {
            assert(tag_ids@.skip(i as int).drop_first() =~= tag_ids@.skip(i + 1));
            assert(tag_ids@.skip(i as int)[0] == id);
        }
        if catalog.tag_index(id).is_none() {
            return Err(Failure::Rule(Rule::ChosenTagMissing));
        }
        if !known {
            return Err(Failure::Write(Step::SaveLink, Constraint::ForeignKey));
        }
        proof {
            lemma_linked(catalog@.tags, models(links@), owner@, id);
        }
        add_link(links, owner, id);
        i = i + 1;
    }
    add_named(catalog, links, owner, new_tags, known, now)
}

} // verus!
