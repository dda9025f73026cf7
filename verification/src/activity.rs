//! The activity collector: feed URL construction, entry filtering, and
//! grouping of contribution items by issue identifier.
//!
//! The raw feed delivers entries newest-first; grouping restores ascending
//! chronological order within each identifier's list.

use crate::cli_args::FilterArgs;
use crate::errors::Error;
use crate::text::{
    chars_of, entry_issue_id, extract_issue_id, string_from_chars, strip_markup,
    strip_markup_chars, trim_chars, trim_spec, truncate_chars, truncated,
};
use vstd::prelude::*;
use vstd::string::StrSliceExecFns;
use vstd::string::StringExecFns;

verus! {

/// One contribution: who wrote, and the sanitised text.
pub struct UpdateContent {
    /// First listed author name of the feed entry.
    pub author: String,
    /// Stripped, trimmed, possibly truncated body text.
    pub content: String,
}

/// One feed entry, as the fetching layer hands it over: plain values only,
/// newest first in the vector.
pub struct FeedEntry {
    /// Canonical id of the entry; its trailing integer is the issue
    /// identifier.
    pub id: String,
    /// Entry update time in milliseconds, when the feed carries one.
    pub updated: Option<i64>,
    /// Entry title; starts with "<project name> - " on project feeds.
    pub title: Option<String>,
    /// First listed author name.
    pub author: String,
    /// Raw body text, when the entry carries one.
    pub content: Option<String>,
}

// --- feed URL construction ---

/// The activity feed URL of one project.
pub open spec fn project_feed_url(base: Seq<char>, proj: Seq<char>) -> Seq<char> {
    base + "/projects/"@ + proj + "/activity.atom"@
}

/// One feed URL per target project, or the whole endpoint's feed.
pub open spec fn base_feed_urls(base: Seq<char>, target: Option<Seq<String>>) -> Seq<Seq<char>> {
    match target {
        Some(projs) => Seq::new(projs.len(), |i: int| project_feed_url(base, projs[i]@)),
        None => seq![base + "/activity.atom"@],
    }
}

/// The cross product of feed URLs with user query parameters.
pub open spec fn cross_user(urls: Seq<Seq<char>>, users: Seq<String>) -> Seq<Seq<char>>
    decreases urls.len(),
{
    if urls.len() == 0 {
        Seq::empty()
    } else {
        cross_user(urls.drop_last(), users) + Seq::new(
            users.len(),
            |u: int| urls.last() + "?user_id="@ + users[u]@,
        )
    }
}

/// All feed URLs of one run: per-project feeds crossed with the user filter.
pub open spec fn feed_urls(
    base: Seq<char>,
    target: Option<Seq<String>>,
    users: Option<Seq<String>>,
) -> Seq<Seq<char>> {
    match users {
        Some(us) => cross_user(base_feed_urls(base, target), us),
        None => base_feed_urls(base, target),
    }
}

/// The target-project view of a filter.
pub open spec fn target_view(filter: FilterArgs) -> Option<Seq<String>> {
    match filter.target_project {
        Some(v) => Some(v@),
        None => None,
    }
}

/// The user view of a filter.
pub open spec fn user_view(filter: FilterArgs) -> Option<Seq<String>> {
    match filter.user {
        Some(v) => Some(v@),
        None => None,
    }
}

/// Builds the feed URLs to fetch: one per target project (or one for the
/// endpoint), each crossed with every filtered user.
pub fn build_feed_urls(url: &str, filter: &FilterArgs) -> (r: Vec<String>)
    ensures
        r@.len() == feed_urls(url@, target_view(*filter), user_view(*filter)).len(),
        forall|i: int|
            0 <= i < r@.len() ==> (#[trigger] r@[i])@ == feed_urls(
                url@,
                target_view(*filter),
                user_view(*filter),
            )[i],
{
    let mut base: Vec<String> = Vec::new();
    match &filter.target_project {
        Some(projs) => {
            for p in it: 0..projs.len()
                invariant
                    filter.target_project matches Some(pr) && pr == *projs,
                    base@.len() == p,
                    forall|i: int|
                        0 <= i < p ==> (#[trigger] base@[i])@ == project_feed_url(
                            url@,
                            projs@[i]@,
                        ),
            {
                let mut u = String::from_str(url);
                u.append("/projects/");
                u.append(projs[p].as_str());
                u.append("/activity.atom");
                base.push(u);
            }
        },
        None => {
            let mut u = String::from_str(url);
            u.append("/activity.atom");
            base.push(u);
        },
    }
    let ghost burls = base_feed_urls(url@, target_view(*filter));
    proof {
        assert(base@.len() == burls.len());
        assert(forall|i: int| 0 <= i < base@.len() ==> (#[trigger] base@[i])@ == burls[i]);
    }
    match &filter.user {
        Some(users) => {
            let mut out: Vec<String> = Vec::new();
            for a in at: 0..base.len()
                invariant
                    filter.user matches Some(us) && us == *users,
                    burls == base_feed_urls(url@, target_view(*filter)),
                    base@.len() == burls.len(),
                    forall|i: int| 0 <= i < base@.len() ==> (#[trigger] base@[i])@ == burls[i],
                    out@.len() == cross_user(burls.take(a as int), users@).len(),
                    forall|i: int|
                        0 <= i < out@.len() ==> (#[trigger] out@[i])@ == cross_user(
                            burls.take(a as int),
                            users@,
                        )[i],
            {
                let ghost done = cross_user(burls.take(a as int), users@);
                for u in ut: 0..users.len()
                    invariant
                        filter.user matches Some(us) && us == *users,
                        burls == base_feed_urls(url@, target_view(*filter)),
                        base@.len() == burls.len(),
                        a < base@.len(),
                        forall|i: int| 0 <= i < base@.len() ==> (#[trigger] base@[i])@ == burls[i],
                        done == cross_user(burls.take(a as int), users@),
                        out@.len() == done.len() + u,
                        forall|i: int|
                            0 <= i < done.len() ==> (#[trigger] out@[i])@ == done[i],
                        forall|i: int|
                            done.len() <= i < out@.len() ==> (#[trigger] out@[i])@ == burls[a as int]
                                + "?user_id="@ + users@[i - done.len()]@,
                {
                    let mut w = base[a].clone();
                    w.append("?user_id=");
                    w.append(users[u].as_str());
                    out.push(w);
                }
                proof {
                    assert(burls.take(a + 1).drop_last() =~= burls.take(a as int));
                    assert(burls.take(a + 1).last() == burls[a as int]);
                    let next = cross_user(burls.take(a + 1), users@);
                    assert(next == done + Seq::new(
                        users@.len(),
                        |u: int| burls[a as int] + "?user_id="@ + users@[u]@,
                    ));
                    assert(out@.len() == next.len());
                    assert forall|i: int| 0 <= i < out@.len() implies (#[trigger] out@[i])@
                        == next[i] by {
                        if i >= done.len() {
                            assert(next[i] == burls[a as int] + "?user_id="@ + users@[i
                                - done.len()]@);
                        }
                    }
                }
            }
            proof {
                assert(burls.take(burls.len() as int) =~= burls);
            }
            out
        },
        None => base,
    }
}

// --- entry filtering and grouping ---

/// Does a title carry the "<project> - " prefix of an ignore-listed project?
pub open spec fn ignore_match(title: Seq<char>, proj: Seq<char>) -> bool {
    title.len() >= proj.len() + 3 && title.take((proj.len() + 3) as int) == proj + seq![
        ' ',
        '-',
        ' ',
    ]
}

/// The ignore-project view of the optional list.
pub open spec fn ignore_view(ig: Option<Vec<String>>) -> Option<Seq<String>> {
    match ig {
        Some(v) => Some(v@),
        None => None,
    }
}

/// Is the entry skipped because its project is ignore-listed?
pub open spec fn entry_ignored(e: FeedEntry, ignore: Option<Seq<String>>) -> bool {
    match ignore {
        Some(projs) => e.title matches Some(t) && exists|k: int|
            0 <= k < projs.len() && ignore_match(t@, (#[trigger] projs[k])@),
        None => false,
    }
}

/// Is the entry at or before the cursor, hence already processed?
pub open spec fn entry_too_old(e: FeedEntry, cursor: i64) -> bool {
    e.updated matches Some(t) && t <= cursor
}

/// Does the entry take part in this run?
pub open spec fn entry_active(e: FeedEntry, cursor: i64, ignore: Option<Seq<String>>) -> bool {
    !entry_ignored(e, ignore) && !entry_too_old(e, cursor)
}

/// The sanitised body text of an entry carrying content.
pub open spec fn entry_text(e: FeedEntry) -> Seq<char> {
    trim_spec(strip_markup(e.content->Some_0@))
}

/// Does the entry contribute a content item (non-empty after sanitising)?
pub open spec fn entry_has_item(e: FeedEntry) -> bool {
    e.content is Some && entry_text(e).len() > 0
}

/// The item an entry contributes: author name and delivered text.
pub open spec fn entry_item(e: FeedEntry, maxlen: nat) -> (Seq<char>, Seq<char>) {
    (e.author@, truncated(entry_text(e), maxlen))
}

/// An active entry of this identifier contributing an item.
pub open spec fn contributes(
    e: FeedEntry,
    cursor: i64,
    ignore: Option<Seq<String>>,
    id: u64,
) -> bool {
    entry_active(e, cursor, ignore) && entry_issue_id(e.id@) == Some(id) && entry_has_item(e)
}

/// The items of one identifier, in feed (newest-first) order.
pub open spec fn items_for(
    entries: Seq<FeedEntry>,
    cursor: i64,
    ignore: Option<Seq<String>>,
    maxlen: nat,
    id: u64,
) -> Seq<(Seq<char>, Seq<char>)>
    decreases entries.len(),
{
    if entries.len() == 0 {
        Seq::empty()
    } else {
        items_for(entries.drop_last(), cursor, ignore, maxlen, id) + if contributes(
            entries.last(),
            cursor,
            ignore,
            id,
        ) {
            seq![entry_item(entries.last(), maxlen)]
        } else {
            Seq::empty()
        }
    }
}

/// Was the identifier touched by any active entry?
pub open spec fn touched(
    entries: Seq<FeedEntry>,
    cursor: i64,
    ignore: Option<Seq<String>>,
    id: u64,
) -> bool {
    exists|i: int|
        0 <= i < entries.len() && entry_active(#[trigger] entries[i], cursor, ignore)
            && entry_issue_id(entries[i].id@) == Some(id)
}

/// Does some active entry have an unparseable identifier?
pub open spec fn some_malformed(
    entries: Seq<FeedEntry>,
    cursor: i64,
    ignore: Option<Seq<String>>,
) -> bool {
    exists|i: int|
        0 <= i < entries.len() && entry_active(#[trigger] entries[i], cursor, ignore)
            && entry_issue_id(entries[i].id@) is None
}

/// A group list realises the given items.
pub open spec fn group_matches(g: Seq<UpdateContent>, items: Seq<(Seq<char>, Seq<char>)>) -> bool {
    g.len() == items.len() && forall|i: int|
        0 <= i < g.len() ==> (#[trigger] g[i]).author@ == items[i].0 && g[i].content@ == items[i].1
}

/// The group list of one identifier; empty when the identifier is absent.
pub open spec fn group_get(m: Seq<(u64, Vec<UpdateContent>)>, id: u64) -> Seq<UpdateContent>
    decreases m.len(),
{
    if m.len() == 0 {
        Seq::empty()
    } else if m[0].0 == id {
        m[0].1@
    } else {
        group_get(m.drop_first(), id)
    }
}

proof fn lemma_group_get_first(m: Seq<(u64, Vec<UpdateContent>)>, i: int)
    requires
        0 <= i < m.len(),
        forall|j: int| 0 <= j < i ==> (#[trigger] m[j]).0 != m[i].0,
    ensures
        group_get(m, m[i].0) == m[i].1@,
    decreases m.len(),
{
    if i > 0 {
        assert forall|j: int|
            0 <= j < i - 1 implies (#[trigger] m.drop_first()[j]).0 != m.drop_first()[i - 1].0 by {
            assert(m.drop_first()[j] == m[j + 1]);
        }
        lemma_group_get_first(m.drop_first(), i - 1);
        assert(m.drop_first()[i - 1] == m[i]);
    }
}

pub proof fn lemma_group_get_absent(m: Seq<(u64, Vec<UpdateContent>)>, id: u64)
    requires
        forall|j: int| 0 <= j < m.len() ==> (#[trigger] m[j]).0 != id,
    ensures
        group_get(m, id) =~= Seq::<UpdateContent>::empty(),
    decreases m.len(),
{
    if m.len() > 0 {
        assert forall|j: int|
            0 <= j < m.drop_first().len() implies (#[trigger] m.drop_first()[j]).0 != id by {
            assert(m.drop_first()[j] == m[j + 1]);
        }
        lemma_group_get_absent(m.drop_first(), id);
    }
}

proof fn lemma_group_get_update(
    m: Seq<(u64, Vec<UpdateContent>)>,
    i: int,
    v: Vec<UpdateContent>,
    d: u64,
)
    requires
        0 <= i < m.len(),
        d != m[i].0,
    ensures
        group_get(m.update(i, (m[i].0, v)), d) == group_get(m, d),
    decreases m.len(),
{
    let s2 = m.update(i, (m[i].0, v));
    if i == 0 {
        assert(s2.drop_first() =~= m.drop_first());
    } else {
        if m[0].0 != d {
            assert(s2.drop_first() =~= m.drop_first().update(i - 1, (m[i].0, v)));
            assert(m.drop_first()[i - 1] == m[i]);
            lemma_group_get_update(m.drop_first(), i - 1, v, d);
        }
    }
}

proof fn lemma_group_get_push(
    m: Seq<(u64, Vec<UpdateContent>)>,
    id: u64,
    v: Vec<UpdateContent>,
    d: u64,
)
    requires
        forall|j: int| 0 <= j < m.len() ==> (#[trigger] m[j]).0 != id,
    ensures
        group_get(m.push((id, v)), d) == if d == id {
            v@
        } else {
            group_get(m, d)
        },
    decreases m.len(),
{
    let s2 = m.push((id, v));
    if m.len() == 0 {
        assert(s2[0] == (id, v));
        if d == id {
            assert(group_get(s2, d) == s2[0].1@);
        } else {
            assert(s2.drop_first() =~= Seq::<(u64, Vec<UpdateContent>)>::empty());
            assert(group_get(s2, d) == group_get(s2.drop_first(), d));
        }
    } else {
        assert(s2[0] == m[0]);
        assert(m[0].0 != id);
        assert(s2.drop_first() =~= m.drop_first().push((id, v)));
        assert forall|j: int|
            0 <= j < m.drop_first().len() implies (#[trigger] m.drop_first()[j]).0 != id by {
            assert(m.drop_first()[j] == m[j + 1]);
        }
        lemma_group_get_push(m.drop_first(), id, v, d);
        if d == id {
            assert(group_get(s2, d) == group_get(s2.drop_first(), d));
        } else {
            if m[0].0 == d {
                assert(group_get(s2, d) == s2[0].1@);
                assert(group_get(m, d) == m[0].1@);
            } else {
                assert(group_get(s2, d) == group_get(s2.drop_first(), d));
                assert(group_get(m, d) == group_get(m.drop_first(), d));
            }
        }
    }
}

/// Looks one identifier's group up.
pub fn group_lookup<'a>(m: &'a Vec<(u64, Vec<UpdateContent>)>, id: u64) -> (r: Option<
    &'a Vec<UpdateContent>,
>)
    ensures
        match r {
            Some(g) => group_contains(m@, id) && group_get(m@, id) == g@,
            None => !group_contains(m@, id),
        },
{
    for i in it: 0..m.len()
        invariant
            forall|j: int| 0 <= j < i ==> (#[trigger] m@[j]).0 != id,
    {
        if m[i].0 == id {
            proof {
                lemma_group_get_first(m@, i as int);
            }
            return Some(&m[i].1);
        }
    }
    None
}

/// The one-or-zero-element sequence an item contributes to its group.
pub open spec fn item_seq(item_opt: Option<UpdateContent>) -> Seq<UpdateContent> {
    match item_opt {
        Some(it) => seq![it],
        None => Seq::<UpdateContent>::empty(),
    }
}

/// Registers one entry's contribution: appends the item (if any) to the
/// identifier's group, creating the group when the identifier is new.
fn add_to_groups(
    groups: &mut Vec<(u64, Vec<UpdateContent>)>,
    id: u64,
    item_opt: Option<UpdateContent>,
)
    requires
        group_ids_unique(old(groups)@),
    ensures
        group_ids_unique(final(groups)@),
        forall|d: u64|
            group_contains(final(groups)@, d) <==> group_contains(old(groups)@, d) || d == id,
        forall|d: u64| d != id ==> group_get(final(groups)@, d) == group_get(old(groups)@, d),
        group_get(final(groups)@, id) == group_get(old(groups)@, id) + item_seq(item_opt),
{
    let ghost itemv: Seq<UpdateContent> = item_seq(item_opt);
    let ghost gpre = groups@;
    let mut found: Option<usize> = None;
    let glen = groups.len();
    for gi in git: 0..glen
        invariant
            glen == groups@.len(),
            groups@ == gpre,
            group_ids_unique(gpre),
            match found {
                Some(f) => f < glen && gpre[f as int].0 == id,
                None => forall|j: int| 0 <= j < gi ==> (#[trigger] gpre[j]).0 != id,
            },
    {
        if groups[gi].0 == id {
            if found.is_none() {
                found = Some(gi);
            }
        }
    }
    match found {
        Some(f) => {
            proof {
                assert forall|j: int| 0 <= j < f implies (#[trigger] gpre[j]).0 != gpre[f as int].0
                    by {}
                lemma_group_get_first(gpre, f as int);
            }
            match item_opt {
                Some(item) => {
                    let mut pair = groups.remove(f);
                    pair.1.push(item);
                    groups.insert(f, pair);
                    proof {
                        let gs = groups@;
                        assert(gs =~= gpre.update(f as int, (gpre[f as int].0, gs[f as int].1)));
                        assert(gs[f as int].1@ =~= gpre[f as int].1@ + itemv);
                        assert(forall|i: int|
                            0 <= i < gs.len() ==> (#[trigger] gs[i]).0 == gpre[i].0);
                        assert(group_ids_unique(gs)) by {
                            assert forall|p: int, q: int|
                                0 <= p < q < gs.len() implies (#[trigger] gs[p]).0
                                != (#[trigger] gs[q]).0 by {
                                assert(gpre[p].0 != gpre[q].0);
                            }
                        }
                        assert forall|j: int|
                            0 <= j < f implies (#[trigger] gs[j]).0 != gs[f as int].0 by {
                            assert(gpre[j].0 != gpre[f as int].0);
                        }
                        lemma_group_get_first(gs, f as int);
                        assert forall|d: u64| d != id implies group_get(gs, d) == group_get(
                            gpre,
                            d,
                        ) by {
                            lemma_group_get_update(gpre, f as int, gs[f as int].1, d);
                        }
                        assert forall|d: u64|
                            group_contains(gs, d) <==> group_contains(gpre, d) || d == id by {
                            if group_contains(gs, d) {
                                let i = choose|i: int|
                                    0 <= i < gs.len() && (#[trigger] gs[i]).0 == d;
                                assert(gpre[i].0 == d);
                            }
                            if group_contains(gpre, d) {
                                let i = choose|i: int|
                                    0 <= i < gpre.len() && (#[trigger] gpre[i]).0 == d;
                                assert(gs[i].0 == d);
                            }
                            if d == id {
                                assert(gs[f as int].0 == d);
                            }
                        }
                    }
                },
                None => {
                    proof {
                        assert(group_get(groups@, id) =~= group_get(gpre, id) + itemv);
                        assert forall|d: u64|
                            group_contains(groups@, d) <==> group_contains(gpre, d) || d
                            == id by {
                            if d == id {
                                assert(gpre[f as int].0 == d);
                            }
                        }
                    }
                },
            }
        },
        None => {
            let fresh: Vec<UpdateContent> = match item_opt {
                Some(item) => {
                    let mut one: Vec<UpdateContent> = Vec::new();
                    one.push(item);
                    one
                },
                None => Vec::new(),
            };
            proof {
                assert(fresh@ == itemv);
            }
            groups.push((id, fresh));
            proof {
                let gs = groups@;
                assert(gs =~= gpre.push((id, fresh)));
                lemma_group_get_absent(gpre, id);
                assert forall|d: u64| group_get(gs, d) == if d == id {
                    fresh@
                } else {
                    group_get(gpre, d)
                } by {
                    lemma_group_get_push(gpre, id, fresh, d);
                }
                assert(group_get(gs, id) =~= group_get(gpre, id) + itemv);
                assert(group_ids_unique(gs)) by {
                    assert forall|p: int, q: int|
                        0 <= p < q < gs.len() implies (#[trigger] gs[p]).0
                        != (#[trigger] gs[q]).0 by {
                        if q == gpre.len() as int {
                            assert(gs[p] == gpre[p]);
                        } else {
                            assert(gs[p] == gpre[p] && gs[q] == gpre[q]);
                        }
                    }
                }
                assert forall|d: u64|
                    group_contains(gs, d) <==> group_contains(gpre, d) || d == id by {
                    if group_contains(gs, d) && d != id {
                        let i = choose|i: int| 0 <= i < gs.len() && (#[trigger] gs[i]).0 == d;
                        assert(gpre[i].0 == d);
                    }
                    if group_contains(gpre, d) {
                        let i = choose|i: int| 0 <= i < gpre.len() && (#[trigger] gpre[i]).0 == d;
                        assert(gs[i].0 == d);
                    }
                    if d == id {
                        assert(gs[gs.len() - 1].0 == d);
                    }
                }
            }
        },
    }
}

/// Group identifiers are pairwise distinct.
pub open spec fn group_ids_unique(m: Seq<(u64, Vec<UpdateContent>)>) -> bool {
    forall|p: int, q: int| 0 <= p < q < m.len() ==> (#[trigger] m[p]).0 != (#[trigger] m[q]).0
}

/// Does the grouping carry this identifier?
pub open spec fn group_contains(m: Seq<(u64, Vec<UpdateContent>)>, id: u64) -> bool {
    exists|i: int| 0 <= i < m.len() && (#[trigger] m[i]).0 == id
}

/// An identifier no active entry touches contributes no items.
proof fn lemma_items_empty_if_untouched(
    entries: Seq<FeedEntry>,
    cursor: i64,
    ignore: Option<Seq<String>>,
    maxlen: nat,
    id: u64,
)
    requires
        !touched(entries, cursor, ignore, id),
    ensures
        items_for(entries, cursor, ignore, maxlen, id) =~= Seq::<(Seq<char>, Seq<char>)>::empty(),
    decreases entries.len(),
{
    if entries.len() > 0 {
        assert(!touched(entries.drop_last(), cursor, ignore, id)) by {
            if touched(entries.drop_last(), cursor, ignore, id) {
                let i = choose|i: int|
                    0 <= i < entries.drop_last().len() && entry_active(
                        #[trigger] entries.drop_last()[i],
                        cursor,
                        ignore,
                    ) && entry_issue_id(entries.drop_last()[i].id@) == Some(id);
                assert(entries[i] == entries.drop_last()[i]);
            }
        }
        lemma_items_empty_if_untouched(entries.drop_last(), cursor, ignore, maxlen, id);
        assert(!contributes(entries.last(), cursor, ignore, id)) by {
            if entry_active(entries.last(), cursor, ignore) && entry_issue_id(entries.last().id@)
                == Some(id) {
                assert(entries[entries.len() - 1] == entries.last());
            }
        }
    }
}

/// Decides whether a title starts with the "<project> - " prefix.
fn has_ignore_prefix(title: &String, proj: &String) -> (r: bool)
    ensures
        r == ignore_match(title@, proj@),
{
    let t = chars_of(title.as_str());
    let p = chars_of(proj.as_str());
    let tl = t.len();
    let pl = p.len();
    if tl < pl {
        return false;
    }
    if tl - pl < 3 {
        return false;
    }
    let ghost sep: Seq<char> = seq![' ', '-', ' '];
    let ghost want: Seq<char> = proj@ + sep;
    for i in it: 0..pl
        invariant
            t@ == title@,
            p@ == proj@,
            tl == t@.len(),
            pl == p@.len(),
            tl >= pl + 3,
            forall|j: int| 0 <= j < i ==> t@[j] == p@[j],
    {
        if t[i] != p[i] {
            proof {
                let want: Seq<char> = proj@ + seq![' ', '-', ' '];
                assert(want[i as int] == proj@[i as int]);
                assert(title@.take((proj@.len() + 3) as int)[i as int] == title@[i as int]);
            }
            return false;
        }
    }
    let c0 = t[pl];
    let c1 = t[pl + 1];
    let c2 = t[pl + 2];
    if c0 == ' ' && c1 == '-' && c2 == ' ' {
        proof {
            let want: Seq<char> = proj@ + seq![' ', '-', ' '];
            assert(title@.take((proj@.len() + 3) as int) =~= want);
        }
        true
    } else {
        proof {
            let want: Seq<char> = proj@ + seq![' ', '-', ' '];
            let l = proj@.len() as int;
            assert(want[l] == ' ' && want[l + 1] == '-' && want[l + 2] == ' ');
            assert(title@.take(l + 3)[l] == title@[l]);
            assert(title@.take(l + 3)[l + 1] == title@[l + 1]);
            assert(title@.take(l + 3)[l + 2] == title@[l + 2]);
        }
        false
    }
}

/// The update times of one identifier's items, parallel to `items_for`.
pub open spec fn times_for(
    entries: Seq<FeedEntry>,
    cursor: i64,
    ignore: Option<Seq<String>>,
    id: u64,
) -> Seq<int>
    decreases entries.len(),
{
    if entries.len() == 0 {
        Seq::empty()
    } else {
        times_for(entries.drop_last(), cursor, ignore, id) + if contributes(
            entries.last(),
            cursor,
            ignore,
            id,
        ) {
            seq![entries.last().updated->Some_0 as int]
        } else {
            Seq::empty()
        }
    }
}

/// Is the feed newest-first: every entry timestamped, times non-increasing
/// by position?
pub open spec fn feed_descending(entries: Seq<FeedEntry>) -> bool {
    &&& forall|i: int| 0 <= i < entries.len() ==> (#[trigger] entries[i]).updated is Some
    &&& forall|i: int, j: int|
        0 <= i <= j < entries.len() ==> (#[trigger] entries[i]).updated->Some_0
            >= (#[trigger] entries[j]).updated->Some_0
}

proof fn lemma_times_monotone(
    entries: Seq<FeedEntry>,
    cursor: i64,
    ignore: Option<Seq<String>>,
    id: u64,
)
    requires
        feed_descending(entries),
    ensures
        forall|p: int, q: int|
            0 <= p <= q < times_for(entries, cursor, ignore, id).len() ==> times_for(
                entries,
                cursor,
                ignore,
                id,
            )[p] >= times_for(entries, cursor, ignore, id)[q],
        entries.len() > 0 ==> forall|k: int|
            0 <= k < times_for(entries, cursor, ignore, id).len() ==> times_for(
                entries,
                cursor,
                ignore,
                id,
            )[k] >= entries.last().updated->Some_0,
    decreases entries.len(),
{
    if entries.len() > 0 {
        let dl = entries.drop_last();
        assert(feed_descending(dl)) by {
            assert forall|i: int| 0 <= i < dl.len() implies (#[trigger] dl[i]).updated is Some by {
                assert(dl[i] == entries[i]);
            }
            assert forall|i: int, j: int|
                0 <= i <= j < dl.len() implies (#[trigger] dl[i]).updated->Some_0
                >= (#[trigger] dl[j]).updated->Some_0 by {
                assert(dl[i] == entries[i] && dl[j] == entries[j]);
            }
        }
        lemma_times_monotone(dl, cursor, ignore, id);
        if dl.len() > 0 {
            assert(dl.last() == entries[entries.len() - 2]);
            assert(dl.last().updated->Some_0 >= entries.last().updated->Some_0);
        }
        let t = times_for(entries, cursor, ignore, id);
        let td = times_for(dl, cursor, ignore, id);
        assert forall|k: int|
            0 <= k < t.len() implies t[k] >= entries.last().updated->Some_0 by {
            if k < td.len() {
                assert(t[k] == td[k]);
                assert(dl.len() > 0);
                assert(td[k] >= dl.last().updated->Some_0);
            } else {
                assert(t[k] == entries.last().updated->Some_0 as int);
            }
        }
        assert forall|p: int, q: int| 0 <= p <= q < t.len() implies t[p] >= t[q] by {
            if q < td.len() {
                assert(t[p] == td[p] && t[q] == td[q]);
            } else if p < td.len() {
                assert(t[p] == td[p]);
                assert(t[q] == entries.last().updated->Some_0 as int);
                assert(dl.len() > 0);
                assert(td[p] >= dl.last().updated->Some_0);
            }
        }
    }
}

/// Activity grouping preserves the total item count per identifier — one
/// item per contributing feed entry — and, for a newest-first feed, the
/// grouped (reversed) order is oldest first: the items' update times, read
/// in group order, are non-decreasing.
pub proof fn lemma_grouping_chronological(
    entries: Seq<FeedEntry>,
    cursor: i64,
    ignore: Option<Seq<String>>,
    maxlen: nat,
    id: u64,
)
    requires
        feed_descending(entries),
    ensures
        items_for(entries, cursor, ignore, maxlen, id).len() == entries.filter(
            |e: FeedEntry| contributes(e, cursor, ignore, id),
        ).len(),
        times_for(entries, cursor, ignore, id).len() == items_for(
            entries,
            cursor,
            ignore,
            maxlen,
            id,
        ).len(),
        forall|p: int, q: int|
            0 <= p <= q < times_for(entries, cursor, ignore, id).len() ==> times_for(
                entries,
                cursor,
                ignore,
                id,
            ).reverse()[p] <= times_for(entries, cursor, ignore, id).reverse()[q],
{
    lemma_items_filter_len(entries, cursor, ignore, maxlen, id);
    lemma_times_monotone(entries, cursor, ignore, id);
    let t = times_for(entries, cursor, ignore, id);
    assert forall|p: int, q: int|
        0 <= p <= q < t.len() implies t.reverse()[p] <= t.reverse()[q] by {
        assert(t.reverse()[p] == t[t.len() - 1 - p]);
        assert(t.reverse()[q] == t[t.len() - 1 - q]);
    }
}

proof fn lemma_items_filter_len(
    entries: Seq<FeedEntry>,
    cursor: i64,
    ignore: Option<Seq<String>>,
    maxlen: nat,
    id: u64,
)
    ensures
        items_for(entries, cursor, ignore, maxlen, id).len() == entries.filter(
            |e: FeedEntry| contributes(e, cursor, ignore, id),
        ).len(),
        times_for(entries, cursor, ignore, id).len() == items_for(
            entries,
            cursor,
            ignore,
            maxlen,
            id,
        ).len(),
    decreases entries.len(),
{
    reveal_with_fuel(Seq::filter, 2);
    if entries.len() > 0 {
        lemma_items_filter_len(entries.drop_last(), cursor, ignore, maxlen, id);
    }
}

/// Filters and groups feed entries by issue identifier.
///
/// An entry is skipped when its project is ignore-listed or its timestamp is
/// not strictly after the cursor. Each remaining entry registers its
/// identifier; when its body text is non-empty after sanitising, it also
/// contributes an item. Because the feed is newest-first, each group comes
/// out oldest-first. Fails on the first active entry whose identifier cannot
/// be parsed.
pub fn get_activities(
    prev_date: i64,
    entries: &Vec<FeedEntry>,
    ignore_project: &Option<Vec<String>>,
    max_content_length: usize,
) -> (r: Result<Vec<(u64, Vec<UpdateContent>)>, Error>)
    requires
        *ignore_project matches Some(_) ==> forall|i: int|
            0 <= i < entries@.len() ==> (#[trigger] entries@[i]).title is Some,
    ensures
        match r {
            Ok(m) => {
                &&& !some_malformed(entries@, prev_date, ignore_view(*ignore_project))
                &&& group_ids_unique(m@)
                &&& forall|id: u64|
                    group_contains(m@, id) <==> touched(
                        entries@,
                        prev_date,
                        ignore_view(*ignore_project),
                        id,
                    )
                &&& forall|gi: int|
                    0 <= gi < m@.len() ==> group_matches(
                        (#[trigger] m@[gi]).1@,
                        items_for(
                            entries@,
                            prev_date,
                            ignore_view(*ignore_project),
                            max_content_length as nat,
                            m@[gi].0,
                        ).reverse(),
                    )
            },
            Err(e) => some_malformed(entries@, prev_date, ignore_view(*ignore_project)) && e
                is MalformedEntry,
        },
{
    let ghost igv = ignore_view(*ignore_project);
    let ghost maxn = max_content_length as nat;
    let mut groups: Vec<(u64, Vec<UpdateContent>)> = Vec::new();
    let n = entries.len();
    proof {
        assert(entries@.take(0) =~= Seq::<FeedEntry>::empty());
        assert forall|id: u64|
            group_matches(
                #[trigger] group_get(groups@, id),
                items_for(entries@.take(0), prev_date, igv, maxn, id),
            ) by {
            assert(group_get(groups@, id) =~= Seq::<UpdateContent>::empty());
        }
    }
    for k in kt: 0..n
        invariant
            n == entries@.len(),
            igv == ignore_view(*ignore_project),
            maxn == max_content_length as nat,
            *ignore_project matches Some(_) ==> forall|i: int|
                0 <= i < entries@.len() ==> (#[trigger] entries@[i]).title is Some,
            !some_malformed(entries@.take(k as int), prev_date, igv),
            group_ids_unique(groups@),
            forall|id: u64|
                group_contains(groups@, id) <==> touched(
                    entries@.take(k as int),
                    prev_date,
                    igv,
                    id,
                ),
            forall|id: u64|
                group_matches(
                    #[trigger] group_get(groups@, id),
                    items_for(entries@.take(k as int), prev_date, igv, maxn, id),
                ),
    {
        let ghost tk = entries@.take(k as int);
        let e: &FeedEntry = &entries[k];
        let ghost tk1 = entries@.take(k + 1);
        proof {
            assert(tk1.drop_last() =~= tk);
            assert(tk1.last() == entries@[k as int]);
        }
        // Ignore-listed project?
        let mut ignored = false;
        match ignore_project {
            Some(projs) => {
                let title: &String = match &e.title {
                    Some(t) => t,
                    None => vstd::pervasive::unreached(),
                };
                for pi in pit: 0..projs.len()
                    invariant
                        *ignore_project matches Some(pr) && pr == *projs,
                        e == &entries@[k as int],
                        k < entries@.len(),
                        e.title matches Some(t) && t == *title,
                        ignored <==> exists|x: int|
                            0 <= x < pi && ignore_match(title@, (#[trigger] projs@[x])@),
                {
                    if has_ignore_prefix(title, &projs[pi]) {
                        ignored = true;
                    }
                }
            },
            None => {},
        }
        proof {
            assert(ignored == entry_ignored(entries@[k as int], igv));
        }
        // At or before the cursor?
        let active: bool = if ignored {
            false
        } else {
            match &e.updated {
                Some(t) => *t > prev_date,
                None => true,
            }
        };
        proof {
            assert(active == entry_active(entries@[k as int], prev_date, igv));
        }
        if active {
            let idv = chars_of(e.id.as_str());
            let id: u64 = match extract_issue_id(&idv) {
                Ok(id) => id,
                Err(err) => {
                    proof {
                        assert(entry_active(entries@[k as int], prev_date, igv) && entry_issue_id(
                            entries@[k as int].id@,
                        ) is None);
                    }
                    return Err(err);
                },
            };
            // The content item, when the sanitised text is non-empty.
            let item_opt: Option<UpdateContent> = match &e.content {
                Some(c) => {
                    let cv = chars_of(c.as_str());
                    let stripped = strip_markup_chars(&cv);
                    let trimmed = trim_chars(&stripped);
                    if trimmed.len() > 0 {
                        let cut = truncate_chars(&trimmed, max_content_length);
                        Some(
                            UpdateContent {
                                author: e.author.clone(),
                                content: string_from_chars(&cut),
                            },
                        )
                    } else {
                        None
                    }
                },
                None => None,
            };
            let ghost itemv = item_seq(item_opt);
            proof {
                if item_opt is Some {
                    let it = item_opt->0;
                    assert(entry_has_item(entries@[k as int]));
                    assert((it.author@, it.content@) == entry_item(entries@[k as int], maxn));
                } else {
                    assert(!entry_has_item(entries@[k as int]));
                }
                assert(contributes(entries@[k as int], prev_date, igv, id) == (item_opt is Some));
            }
            let ghost gpre = groups@;
            add_to_groups(&mut groups, id, item_opt);
            proof {
                let gs = groups@;
                // Membership matches touched-ness.
                assert forall|id2: u64|
                    group_contains(gs, id2) <==> touched(tk1, prev_date, igv, id2) by {
                    if group_contains(gs, id2) {
                        if id2 == id {
                            assert(entry_active(tk1[k as int], prev_date, igv));
                            assert(touched(tk1, prev_date, igv, id2));
                        } else {
                            assert(group_contains(gpre, id2));
                            let w = choose|w: int|
                                0 <= w < tk.len() && entry_active(#[trigger] tk[w], prev_date, igv)
                                    && entry_issue_id(tk[w].id@) == Some(id2);
                            assert(tk1[w] == tk[w]);
                        }
                    }
                    if touched(tk1, prev_date, igv, id2) {
                        let w = choose|w: int|
                            0 <= w < tk1.len() && entry_active(#[trigger] tk1[w], prev_date, igv)
                                && entry_issue_id(tk1[w].id@) == Some(id2);
                        if w < k as int {
                            assert(tk[w] == tk1[w]);
                            assert(touched(tk, prev_date, igv, id2));
                        } else {
                            assert(id2 == id);
                        }
                    }
                }
                // Each identifier's group realises its items.
                assert forall|id2: u64|
                    group_matches(
                        #[trigger] group_get(gs, id2),
                        items_for(tk1, prev_date, igv, maxn, id2),
                    ) by {
                    let before = items_for(tk, prev_date, igv, maxn, id2);
                    let after = items_for(tk1, prev_date, igv, maxn, id2);
                    assert(group_matches(group_get(gpre, id2), before));
                    if id2 != id {
                        assert(!contributes(tk1.last(), prev_date, igv, id2));
                        assert(after =~= before);
                        assert(group_get(gs, id2) == group_get(gpre, id2));
                    } else {
                        assert(group_get(gs, id2) == group_get(gpre, id2) + itemv);
                        if item_opt is Some {
                            assert(after =~= before + seq![entry_item(entries@[k as int], maxn)]);
                            let g2 = group_get(gs, id2);
                            assert forall|x: int|
                                0 <= x < g2.len() implies (#[trigger] g2[x]).author@ == after[x].0
                                    && g2[x].content@ == after[x].1 by {
                                if x < g2.len() - 1 {
                                    assert(g2[x] == group_get(gpre, id2)[x]);
                                    assert(after[x] == before[x]);
                                } else {
                                    assert(g2[x] == itemv[0]);
                                }
                            }
                        } else {
                            assert(after =~= before);
                            assert(group_get(gs, id2) =~= group_get(gpre, id2));
                        }
                    }
                }
                // No malformed active entry so far.
                assert(!some_malformed(tk1, prev_date, igv)) by {
                    if some_malformed(tk1, prev_date, igv) {
                        let w = choose|w: int|
                            0 <= w < tk1.len() && entry_active(#[trigger] tk1[w], prev_date, igv)
                                && entry_issue_id(tk1[w].id@) is None;
                        if w < k as int {
                            assert(tk[w] == tk1[w]);
                        }
                    }
                }
            }
        } else {
            proof {
                assert(!some_malformed(tk1, prev_date, igv)) by {
                    if some_malformed(tk1, prev_date, igv) {
                        let w = choose|w: int|
                            0 <= w < tk1.len() && entry_active(#[trigger] tk1[w], prev_date, igv)
                                && entry_issue_id(tk1[w].id@) is None;
                        if w < k as int {
                            assert(tk[w] == tk1[w]);
                        }
                    }
                }
                assert forall|id2: u64|
                    group_contains(groups@, id2) <==> touched(tk1, prev_date, igv, id2) by {
                    if touched(tk1, prev_date, igv, id2) {
                        let w = choose|w: int|
                            0 <= w < tk1.len() && entry_active(#[trigger] tk1[w], prev_date, igv)
                                && entry_issue_id(tk1[w].id@) == Some(id2);
                        assert(w < k as int);
                        assert(tk[w] == tk1[w]);
                        assert(touched(tk, prev_date, igv, id2));
                    }
                    if touched(tk, prev_date, igv, id2) {
                        let w = choose|w: int|
                            0 <= w < tk.len() && entry_active(#[trigger] tk[w], prev_date, igv)
                                && entry_issue_id(tk[w].id@) == Some(id2);
                        assert(tk1[w] == tk[w]);
                    }
                }
                assert forall|id2: u64|
                    group_matches(
                        #[trigger] group_get(groups@, id2),
                        items_for(tk1, prev_date, igv, maxn, id2),
                    ) by {
                    assert(!contributes(tk1.last(), prev_date, igv, id2));
                    assert(items_for(tk1, prev_date, igv, maxn, id2) =~= items_for(
                        tk,
                        prev_date,
                        igv,
                        maxn,
                        id2,
                    ));
                    assert(group_matches(
                        group_get(groups@, id2),
                        items_for(tk, prev_date, igv, maxn, id2),
                    ));
                }
            }
        }
    }
    proof {
        assert(entries@.take(n as int) =~= entries@);
    }
    // Restore ascending chronological order within each group: the feed was
    // newest-first, so each group list is reversed.
    let mut result: Vec<(u64, Vec<UpdateContent>)> = Vec::new();
    let glen = groups.len();
    for gi in git: 0..glen
        invariant
            glen == groups@.len(),
            igv == ignore_view(*ignore_project),
            maxn == max_content_length as nat,
            group_ids_unique(groups@),
            forall|id: u64| group_contains(groups@, id) <==> touched(entries@, prev_date, igv, id),
            forall|id: u64|
                group_matches(
                    #[trigger] group_get(groups@, id),
                    items_for(entries@, prev_date, igv, maxn, id),
                ),
            !some_malformed(entries@, prev_date, igv),
            result@.len() == gi,
            forall|g: int| 0 <= g < gi ==> (#[trigger] result@[g]).0 == groups@[g].0,
            forall|g: int|
                0 <= g < gi ==> (#[trigger] result@[g]).1@.len() == groups@[g].1@.len() && forall|
                    x: int,
                |
                    0 <= x < result@[g].1@.len() ==> result@[g].1@[x] == groups@[g].1@[groups@[g].1@.len()
                        - 1 - x],
    {
        let pair: &(u64, Vec<UpdateContent>) = &groups[gi];
        let plen = pair.1.len();
        let mut rev: Vec<UpdateContent> = Vec::new();
        for x in xt: 0..plen
            invariant
                plen == pair.1@.len(),
                rev@.len() == x,
                forall|j: int| 0 <= j < x ==> (#[trigger] rev@[j]) == pair.1@[plen - 1 - j],
        {
            let src: &UpdateContent = &pair.1[plen - 1 - x];
            rev.push(UpdateContent { author: src.author.clone(), content: src.content.clone() });
        }
        result.push((pair.0, rev));
    }
    proof {
        assert forall|gi2: int| 0 <= gi2 < result@.len() implies group_matches(
            (#[trigger] result@[gi2]).1@,
            items_for(entries@, prev_date, igv, maxn, result@[gi2].0).reverse(),
        ) by {
            let id2 = result@[gi2].0;
            let items = items_for(entries@, prev_date, igv, maxn, id2);
            assert forall|j: int| 0 <= j < gi2 implies (#[trigger] groups@[j]).0 != groups@[gi2].0
                by {}
            lemma_group_get_first(groups@, gi2);
            assert(group_matches(group_get(groups@, id2), items));
            assert(groups@[gi2].1@.len() == items.len());
            assert forall|x: int|
                0 <= x < result@[gi2].1@.len() implies (#[trigger] result@[gi2].1@[x]).author@
                == items.reverse()[x].0 && result@[gi2].1@[x].content@ == items.reverse()[x].1 by {
                assert(result@[gi2].1@[x] == groups@[gi2].1@[groups@[gi2].1@.len() - 1 - x]);
                assert(items.reverse()[x] == items[items.len() - 1 - x]);
            }
        }
        assert(group_ids_unique(result@)) by {
            assert forall|p: int, q: int|
                0 <= p < q < result@.len() implies (#[trigger] result@[p]).0
                != (#[trigger] result@[q]).0 by {
                assert(groups@[p].0 != groups@[q].0);
            }
        }
        assert forall|id2: u64|
            group_contains(result@, id2) <==> group_contains(groups@, id2) by {
            if group_contains(result@, id2) {
                let i = choose|i: int| 0 <= i < result@.len() && (#[trigger] result@[i]).0 == id2;
                assert(groups@[i].0 == id2);
            }
            if group_contains(groups@, id2) {
                let i = choose|i: int| 0 <= i < groups@.len() && (#[trigger] groups@[i]).0 == id2;
                assert(result@[i].0 == id2);
            }
        }
    }
    Ok(result)
}

} // verus!
