//! Readers for the REST endpoint's paginated JSON pages: projects, users,
//! and issue snapshots, plus the offset/limit pagination rule.
//!
//! The fetching layer hands whole parsed pages over; everything here is a
//! pure function of those pages.

use crate::errors::Error;
use crate::json::{json_eq, JsonValue};
use crate::store::{ids_unique, issue_get};
use crate::text::{dec_str, u64_to_dec_chars};
use vstd::prelude::*;
use vstd::string::StringExecFns;

verus! {

/// One project of the tracker.
pub struct Project {
    /// Numeric identifier.
    pub id: u32,
    /// Name identifier, as used in feed URLs.
    pub name_id: String,
    /// Display name, as used in entry titles.
    pub name: String,
}

/// The array under `key` in a page object.
pub open spec fn page_array(page: JsonValue, key: Seq<char>) -> Option<Seq<JsonValue>> {
    match page.spec_get(key) {
        Some(x) => if x is Arr {
            Some(x->Arr_0@)
        } else {
            None
        },
        None => None,
    }
}

/// The numeric field under `key` in a page object.
pub open spec fn page_u64(page: JsonValue, key: Seq<char>) -> Option<u64> {
    match page.spec_get(key) {
        Some(x) => x.spec_as_u64(),
        None => None,
    }
}

/// The string field under `key` in an element object.
pub open spec fn elem_str(v: JsonValue, key: Seq<char>) -> Option<Seq<char>> {
    match v.spec_get(key) {
        Some(x) => x.spec_as_str(),
        None => None,
    }
}

/// Reads a page's `total_count` and `limit`, as 32-bit counts.
pub fn page_counts(page: &JsonValue) -> (r: Result<(u32, u32), Error>)
    ensures
        match r {
            Ok(c) => (page_u64(*page, "total_count"@) matches Some(t) && c.0 == t as u32) && (
            page_u64(*page, "limit"@) matches Some(l) && c.1 == l as u32),
            Err(e) => (page_u64(*page, "total_count"@) is None || page_u64(*page, "limit"@)
                is None) && e is Fetch,
        },
{
    let total: u64 = match page.get("total_count") {
        Some(x) => match x.as_u64() {
            Some(t) => t,
            None => {
                return Err(Error::Fetch(String::from_str("page has no total_count")));
            },
        },
        None => {
            return Err(Error::Fetch(String::from_str("page has no total_count")));
        },
    };
    let limit: u64 = match page.get("limit") {
        Some(x) => match x.as_u64() {
            Some(l) => l,
            None => {
                return Err(Error::Fetch(String::from_str("page has no limit")));
            },
        },
        None => {
            return Err(Error::Fetch(String::from_str("page has no limit")));
        },
    };
    Ok((#[verifier::truncate] (total as u32), #[verifier::truncate] (limit as u32)))
}

/// Pagination step: the next offset when the pages read so far do not yet
/// cover the reported total.
pub fn next_offset(offset: u32, limit: u32, total_count: u32) -> (r: Option<u32>)
    ensures
        r == if offset + limit < total_count {
            Some((offset + limit) as u32)
        } else {
            None::<u32>
        },
{
    if (offset as u64) + (limit as u64) < (total_count as u64) {
        Some(offset + limit)
    } else {
        None
    }
}

/// Is one element of a projects page well-formed?
pub open spec fn project_elem_ok(v: JsonValue) -> bool {
    &&& page_u64(v, "id"@) is Some
    &&& elem_str(v, "identifier"@) is Some
    &&& elem_str(v, "name"@) is Some
}

/// Is a whole projects page well-formed?
pub open spec fn projects_page_ok(page: JsonValue) -> bool {
    &&& page_array(page, "projects"@) matches Some(arr) && forall|j: int|
        0 <= j < arr.len() ==> project_elem_ok(#[trigger] arr[j])
}

/// The project list described by the pages, flattened in page order.
pub open spec fn projects_flat(pages: Seq<JsonValue>) -> Seq<JsonValue>
    decreases pages.len(),
{
    if pages.len() == 0 {
        Seq::empty()
    } else {
        projects_flat(pages.drop_last()) + match page_array(pages.last(), "projects"@) {
            Some(arr) => arr,
            None => Seq::empty(),
        }
    }
}

/// Does a project realise a page element?
pub open spec fn project_matches(p: Project, v: JsonValue) -> bool {
    &&& p.id == page_u64(v, "id"@)->Some_0 as u32
    &&& p.name_id@ == elem_str(v, "identifier"@)->Some_0
    &&& p.name@ == elem_str(v, "name"@)->Some_0
}

/// Reads the full project list from the fetched pages.
pub fn get_projects(pages: &Vec<JsonValue>) -> (r: Result<Vec<Project>, Error>)
    ensures
        match r {
            Ok(list) => {
                &&& forall|p: int| 0 <= p < pages@.len() ==> projects_page_ok(#[trigger] pages@[p])
                &&& list@.len() == projects_flat(pages@).len()
                &&& forall|j: int|
                    0 <= j < list@.len() ==> project_matches(
                        #[trigger] list@[j],
                        projects_flat(pages@)[j],
                    )
            },
            Err(e) => (exists|p: int|
                0 <= p < pages@.len() && !projects_page_ok(#[trigger] pages@[p])) && e is Fetch,
        },
{
    let mut list: Vec<Project> = Vec::new();
    let n = pages.len();
    for p in pt: 0..n
        invariant
            n == pages@.len(),
            forall|q: int| 0 <= q < p ==> projects_page_ok(#[trigger] pages@[q]),
            list@.len() == projects_flat(pages@.take(p as int)).len(),
            forall|j: int|
                0 <= j < list@.len() ==> project_matches(
                    #[trigger] list@[j],
                    projects_flat(pages@.take(p as int))[j],
                ),
    {
        let ghost tk1 = pages@.take(p + 1);
        proof {
            assert(tk1.drop_last() =~= pages@.take(p as int));
            assert(tk1.last() == pages@[p as int]);
        }
        let arr: &Vec<JsonValue> = match pages[p].get("projects") {
            Some(JsonValue::Arr(a)) => a,
            _ => {
                proof {
                    assert(!projects_page_ok(pages@[p as int]));
                }
                return Err(Error::Fetch(String::from_str("page has no projects array")));
            },
        };
        proof {
            assert(page_array(pages@[p as int], "projects"@) == Some(arr@));
        }
        for j in jt: 0..arr.len()
            invariant
                n == pages@.len(),
                p < n,
                page_array(pages@[p as int], "projects"@) == Some(arr@),
                forall|m: int| 0 <= m < j ==> project_elem_ok(#[trigger] arr@[m]),
                list@.len() == projects_flat(pages@.take(p as int)).len() + j,
                forall|m: int|
                    0 <= m < projects_flat(pages@.take(p as int)).len() ==> project_matches(
                        #[trigger] list@[m],
                        projects_flat(pages@.take(p as int))[m],
                    ),
                forall|m: int|
                    0 <= m < j ==> project_matches(
                        #[trigger] list@[projects_flat(pages@.take(p as int)).len() + m],
                        arr@[m],
                    ),
        {
            let v = &arr[j];
            let idv: u64 = match v.get("id") {
                Some(x) => match x.as_u64() {
                    Some(i) => i,
                    None => {
                        proof {
                            assert(!project_elem_ok(arr@[j as int]));
                            assert(!projects_page_ok(pages@[p as int])) by {
                                if projects_page_ok(pages@[p as int]) {
                                    assert(project_elem_ok(
                                        page_array(pages@[p as int], "projects"@)->Some_0[j as int],
                                    ));
                                }
                            }
                        }
                        return Err(Error::Fetch(String::from_str("project has no numeric id")));
                    },
                },
                None => {
                    proof {
                        assert(!project_elem_ok(arr@[j as int]));
                        assert(!projects_page_ok(pages@[p as int])) by {
                            if projects_page_ok(pages@[p as int]) {
                                assert(project_elem_ok(
                                    page_array(pages@[p as int], "projects"@)->Some_0[j as int],
                                ));
                            }
                        }
                    }
                    return Err(Error::Fetch(String::from_str("project has no numeric id")));
                },
            };
            let name_id: String = match v.get("identifier") {
                Some(x) => match x.as_str() {
                    Some(s) => s.clone(),
                    None => {
                        proof {
                            assert(!project_elem_ok(arr@[j as int]));
                            assert(!projects_page_ok(pages@[p as int])) by {
                                if projects_page_ok(pages@[p as int]) {
                                    assert(project_elem_ok(
                                        page_array(pages@[p as int], "projects"@)->Some_0[j as int],
                                    ));
                                }
                            }
                        }
                        return Err(Error::Fetch(String::from_str("project has no identifier")));
                    },
                },
                None => {
                    proof {
                        assert(!project_elem_ok(arr@[j as int]));
                        assert(!projects_page_ok(pages@[p as int])) by {
                            if projects_page_ok(pages@[p as int]) {
                                assert(project_elem_ok(
                                    page_array(pages@[p as int], "projects"@)->Some_0[j as int],
                                ));
                            }
                        }
                    }
                    return Err(Error::Fetch(String::from_str("project has no identifier")));
                },
            };
            let name: String = match v.get("name") {
                Some(x) => match x.as_str() {
                    Some(s) => s.clone(),
                    None => {
                        proof {
                            assert(!project_elem_ok(arr@[j as int]));
                            assert(!projects_page_ok(pages@[p as int])) by {
                                if projects_page_ok(pages@[p as int]) {
                                    assert(project_elem_ok(
                                        page_array(pages@[p as int], "projects"@)->Some_0[j as int],
                                    ));
                                }
                            }
                        }
                        return Err(Error::Fetch(String::from_str("project has no name")));
                    },
                },
                None => {
                    proof {
                        assert(!project_elem_ok(arr@[j as int]));
                        assert(!projects_page_ok(pages@[p as int])) by {
                            if projects_page_ok(pages@[p as int]) {
                                assert(project_elem_ok(
                                    page_array(pages@[p as int], "projects"@)->Some_0[j as int],
                                ));
                            }
                        }
                    }
                    return Err(Error::Fetch(String::from_str("project has no name")));
                },
            };
            list.push(Project { id: #[verifier::truncate] (idv as u32), name_id, name });
        }
        proof {
            assert(projects_flat(tk1) =~= projects_flat(pages@.take(p as int)) + arr@);
            let base = projects_flat(pages@.take(p as int)).len() as int;
            assert forall|m: int| 0 <= m < list@.len() implies project_matches(
                #[trigger] list@[m],
                projects_flat(tk1)[m],
            ) by {
                if m < base {
                    assert(projects_flat(tk1)[m] == projects_flat(pages@.take(p as int))[m]);
                } else {
                    assert(projects_flat(tk1)[m] == arr@[m - base]);
                    assert(project_matches(list@[base + (m - base)], arr@[m - base]));
                }
            }
        }
    }
    proof {
        assert(pages@.take(n as int) =~= pages@);
    }
    Ok(list)
}

/// Finds a project by its numeric identifier, as target-project resolution
/// does when an identifier was given as a number.
pub fn find_project_by_id<'a>(projects: &'a Vec<Project>, id: u32) -> (r: Option<&'a Project>)
    ensures
        match r {
            Some(p) => p.id == id && exists|i: int|
                0 <= i < projects@.len() && projects@[i] == *p,
            None => forall|i: int| 0 <= i < projects@.len() ==> (#[trigger] projects@[i]).id != id,
        },
{
    for i in it: 0..projects.len()
        invariant
            forall|j: int| 0 <= j < i ==> (#[trigger] projects@[j]).id != id,
    {
        if projects[i].id == id {
            return Some(&projects[i]);
        }
    }
    None
}

/// Finds a project by numeric identifier or by name identifier, as
/// ignore-project resolution does.
pub fn find_project<'a>(projects: &'a Vec<Project>, id: Option<u32>, name_id: &str) -> (r: Option<
    &'a Project,
>)
    ensures
        match r {
            Some(p) => (p.id == id->Some_0 && id is Some || p.name_id@ == name_id@) && exists|
                i: int,
            | 0 <= i < projects@.len() && projects@[i] == *p,
            None => forall|i: int|
                0 <= i < projects@.len() ==> !(id matches Some(n) && (#[trigger] projects@[i]).id
                    == n) && projects@[i].name_id@ != name_id@,
        },
{
    for i in it: 0..projects.len()
        invariant
            forall|j: int|
                0 <= j < i ==> !(id matches Some(n) && (#[trigger] projects@[j]).id == n)
                    && projects@[j].name_id@ != name_id@,
    {
        let num_hit = match id {
            Some(n) => projects[i].id == n,
            None => false,
        };
        if num_hit || crate::json::str_eq(projects[i].name_id.as_str(), name_id) {
            return Some(&projects[i]);
        }
    }
    None
}

/// Is one element of a users page well-formed?
pub open spec fn user_elem_ok(v: JsonValue) -> bool {
    &&& page_u64(v, "id"@) is Some
    &&& elem_str(v, "login"@) is Some
}

/// Is a whole users page well-formed?
pub open spec fn users_page_ok(page: JsonValue) -> bool {
    &&& page_array(page, "users"@) matches Some(arr) && forall|j: int|
        0 <= j < arr.len() ==> user_elem_ok(#[trigger] arr[j])
}

/// The user list described by the pages, flattened in page order.
pub open spec fn users_flat(pages: Seq<JsonValue>) -> Seq<JsonValue>
    decreases pages.len(),
{
    if pages.len() == 0 {
        Seq::empty()
    } else {
        users_flat(pages.drop_last()) + match page_array(pages.last(), "users"@) {
            Some(arr) => arr,
            None => Seq::empty(),
        }
    }
}

/// The identifier bound to a login name: its latest binding wins, as when
/// the pairs are poured into a map.
pub open spec fn user_lookup(users: Seq<(String, u32)>, name: Seq<char>) -> Option<u32>
    decreases users.len(),
{
    if users.len() == 0 {
        None
    } else if users.last().0@ == name {
        Some(users.last().1)
    } else {
        user_lookup(users.drop_last(), name)
    }
}

/// Reads the login-to-identifier pairs from the fetched pages, page order
/// kept; `user_lookup` reads them as the map the tracker describes.
pub fn get_users_map(pages: &Vec<JsonValue>) -> (r: Result<Vec<(String, u32)>, Error>)
    ensures
        match r {
            Ok(list) => {
                &&& forall|p: int| 0 <= p < pages@.len() ==> users_page_ok(#[trigger] pages@[p])
                &&& list@.len() == users_flat(pages@).len()
                &&& forall|j: int|
                    0 <= j < list@.len() ==> (#[trigger] list@[j]).0@ == elem_str(
                        users_flat(pages@)[j],
                        "login"@,
                    )->Some_0 && list@[j].1 == page_u64(users_flat(pages@)[j], "id"@)->Some_0 as u32
            },
            Err(e) => (exists|p: int|
                0 <= p < pages@.len() && !users_page_ok(#[trigger] pages@[p])) && e is Fetch,
        },
{
    let mut list: Vec<(String, u32)> = Vec::new();
    let n = pages.len();
    for p in pt: 0..n
        invariant
            n == pages@.len(),
            forall|q: int| 0 <= q < p ==> users_page_ok(#[trigger] pages@[q]),
            list@.len() == users_flat(pages@.take(p as int)).len(),
            forall|j: int|
                0 <= j < list@.len() ==> (#[trigger] list@[j]).0@ == elem_str(
                    users_flat(pages@.take(p as int))[j],
                    "login"@,
                )->Some_0 && list@[j].1 == page_u64(
                    users_flat(pages@.take(p as int))[j],
                    "id"@,
                )->Some_0 as u32,
    {
        let ghost tk1 = pages@.take(p + 1);
        proof {
            assert(tk1.drop_last() =~= pages@.take(p as int));
            assert(tk1.last() == pages@[p as int]);
        }
        let arr: &Vec<JsonValue> = match pages[p].get("users") {
            Some(JsonValue::Arr(a)) => a,
            _ => {
                proof {
                    assert(!users_page_ok(pages@[p as int]));
                }
                return Err(Error::Fetch(String::from_str("page has no users array")));
            },
        };
        proof {
            assert(page_array(pages@[p as int], "users"@) == Some(arr@));
        }
        for j in jt: 0..arr.len()
            invariant
                n == pages@.len(),
                p < n,
                page_array(pages@[p as int], "users"@) == Some(arr@),
                forall|m: int| 0 <= m < j ==> user_elem_ok(#[trigger] arr@[m]),
                list@.len() == users_flat(pages@.take(p as int)).len() + j,
                forall|m: int|
                    0 <= m < users_flat(pages@.take(p as int)).len() ==> (#[trigger] list@[m]).0@
                        == elem_str(users_flat(pages@.take(p as int))[m], "login"@)->Some_0
                        && list@[m].1 == page_u64(
                        users_flat(pages@.take(p as int))[m],
                        "id"@,
                    )->Some_0 as u32,
                forall|m: int|
                    0 <= m < j ==> (#[trigger] list@[users_flat(pages@.take(p as int)).len()
                        + m]).0@ == elem_str(arr@[m], "login"@)->Some_0 && list@[users_flat(
                        pages@.take(p as int),
                    ).len() + m].1 == page_u64(arr@[m], "id"@)->Some_0 as u32,
        {
            let v = &arr[j];
            let idv: u64 = match v.get("id") {
                Some(x) => match x.as_u64() {
                    Some(i) => i,
                    None => {
                        proof {
                            assert(!user_elem_ok(arr@[j as int]));
                            assert(!users_page_ok(pages@[p as int])) by {
                                if users_page_ok(pages@[p as int]) {
                                    assert(user_elem_ok(
                                        page_array(pages@[p as int], "users"@)->Some_0[j as int],
                                    ));
                                }
                            }
                        }
                        return Err(Error::Fetch(String::from_str("user has no numeric id")));
                    },
                },
                None => {
                    proof {
                        assert(!user_elem_ok(arr@[j as int]));
                        assert(!users_page_ok(pages@[p as int])) by {
                            if users_page_ok(pages@[p as int]) {
                                assert(user_elem_ok(
                                    page_array(pages@[p as int], "users"@)->Some_0[j as int],
                                ));
                            }
                        }
                    }
                    return Err(Error::Fetch(String::from_str("user has no numeric id")));
                },
            };
            let login: String = match v.get("login") {
                Some(x) => match x.as_str() {
                    Some(s) => s.clone(),
                    None => {
                        proof {
                            assert(!user_elem_ok(arr@[j as int]));
                            assert(!users_page_ok(pages@[p as int])) by {
                                if users_page_ok(pages@[p as int]) {
                                    assert(user_elem_ok(
                                        page_array(pages@[p as int], "users"@)->Some_0[j as int],
                                    ));
                                }
                            }
                        }
                        return Err(Error::Fetch(String::from_str("user has no login")));
                    },
                },
                None => {
                    proof {
                        assert(!user_elem_ok(arr@[j as int]));
                        assert(!users_page_ok(pages@[p as int])) by {
                            if users_page_ok(pages@[p as int]) {
                                assert(user_elem_ok(
                                    page_array(pages@[p as int], "users"@)->Some_0[j as int],
                                ));
                            }
                        }
                    }
                    return Err(Error::Fetch(String::from_str("user has no login")));
                },
            };
            list.push((login, #[verifier::truncate] (idv as u32)));
        }
        proof {
            assert(users_flat(tk1) =~= users_flat(pages@.take(p as int)) + arr@);
            let base = users_flat(pages@.take(p as int)).len() as int;
            assert forall|m: int| 0 <= m < list@.len() implies (#[trigger] list@[m]).0@ == elem_str(
                users_flat(tk1)[m],
                "login"@,
            )->Some_0 && list@[m].1 == page_u64(users_flat(tk1)[m], "id"@)->Some_0 as u32 by {
                if m < base {
                    assert(users_flat(tk1)[m] == users_flat(pages@.take(p as int))[m]);
                } else {
                    assert(users_flat(tk1)[m] == arr@[m - base]);
                    assert(list@[base + (m - base)].0@ == elem_str(arr@[m - base], "login"@)->Some_0
                        && list@[base + (m - base)].1 == page_u64(
                        arr@[m - base],
                        "id"@,
                    )->Some_0 as u32);
                }
            }
        }
    }
    proof {
        assert(pages@.take(n as int) =~= pages@);
    }
    Ok(list)
}

/// Looks a login name up in the user pairs: the latest binding wins.
pub fn lookup_user(users: &Vec<(String, u32)>, name: &str) -> (r: Option<u32>)
    ensures
        r == user_lookup(users@, name@),
{
    let n = users.len();
    let mut k: usize = n;
    proof {
        assert(users@.take(n as int) =~= users@);
    }
    while k > 0
        invariant
            k <= n,
            n == users@.len(),
            user_lookup(users@, name@) == user_lookup(users@.take(k as int), name@),
        decreases k,
    {
        proof {
            assert(users@.take(k as int).last() == users@[k - 1]);
            assert(users@.take(k as int).drop_last() =~= users@.take(k - 1));
        }
        if crate::json::str_eq(users[k - 1].0.as_str(), name) {
            return Some(users[k - 1].1);
        }
        k = k - 1;
    }
    None
}

/// Is one element of an issues page a usable snapshot?
pub open spec fn issue_elem_ok(v: JsonValue) -> bool {
    v is Obj && page_u64(v, "id"@) is Some
}

/// Is a whole issues page well-formed?
pub open spec fn issues_page_ok(page: JsonValue) -> bool {
    &&& page_array(page, "issues"@) matches Some(arr) && forall|j: int|
        0 <= j < arr.len() ==> issue_elem_ok(#[trigger] arr[j])
}

/// The issue list described by the pages, flattened in page order.
pub open spec fn issues_flat(pages: Seq<JsonValue>) -> Seq<JsonValue>
    decreases pages.len(),
{
    if pages.len() == 0 {
        Seq::empty()
    } else {
        issues_flat(pages.drop_last()) + match page_array(pages.last(), "issues"@) {
            Some(arr) => arr,
            None => Seq::empty(),
        }
    }
}


/// Reads the fetched issue snapshots, keyed by their `id` field; a repeated
/// identifier keeps its latest snapshot, as when the pages are poured into a
/// map.
pub fn get_issues(pages: &Vec<JsonValue>) -> (r: Result<Vec<(u64, JsonValue)>, Error>)
    ensures
        match r {
            Ok(list) => {
                &&& forall|p: int| 0 <= p < pages@.len() ==> issues_page_ok(#[trigger] pages@[p])
                &&& ids_unique(list@)
                &&& forall|j: int| 0 <= j < list@.len() ==> (#[trigger] list@[j]).1 is Obj
                &&& forall|j: int|
                    0 <= j < list@.len() ==> exists|m: int|
                        0 <= m < issues_flat(pages@).len() && page_u64(
                            #[trigger] issues_flat(pages@)[m],
                            "id"@,
                        ) == Some((#[trigger] list@[j]).0) && json_eq(
                            list@[j].1,
                            issues_flat(pages@)[m],
                        )
                &&& forall|m: int|
                    0 <= m < issues_flat(pages@).len() ==> issue_get(
                        list@,
                        page_u64(#[trigger] issues_flat(pages@)[m], "id"@)->Some_0,
                    ) is Some
            },
            Err(e) => (exists|p: int|
                0 <= p < pages@.len() && !issues_page_ok(#[trigger] pages@[p])) && e is Fetch,
        },
{
    let mut list: Vec<(u64, JsonValue)> = Vec::new();
    let n = pages.len();
    let mut p: usize = 0;
    while p < n
        invariant
            p <= n,
            n == pages@.len(),
            forall|q: int| 0 <= q < p ==> issues_page_ok(#[trigger] pages@[q]),
            ids_unique(list@),
            forall|j: int| 0 <= j < list@.len() ==> (#[trigger] list@[j]).1 is Obj,
            forall|j: int|
                0 <= j < list@.len() ==> exists|m: int|
                    0 <= m < issues_flat(pages@.take(p as int)).len() && page_u64(
                        #[trigger] issues_flat(pages@.take(p as int))[m],
                        "id"@,
                    ) == Some((#[trigger] list@[j]).0) && json_eq(
                        list@[j].1,
                        issues_flat(pages@.take(p as int))[m],
                    ),
            forall|m: int|
                0 <= m < issues_flat(pages@.take(p as int)).len() ==> issue_get(
                    list@,
                    page_u64(#[trigger] issues_flat(pages@.take(p as int))[m], "id"@)->Some_0,
                ) is Some,
        decreases n - p,
    {
        let ghost tk = pages@.take(p as int);
        let ghost tk1 = pages@.take(p + 1);
        proof {
            assert(tk1.drop_last() =~= tk);
            assert(tk1.last() == pages@[p as int]);
        }
        let arr: &Vec<JsonValue> = match pages[p].get("issues") {
            Some(JsonValue::Arr(a)) => a,
            _ => {
                proof {
                    assert(!issues_page_ok(pages@[p as int]));
                }
                return Err(Error::Fetch(String::from_str("page has no issues array")));
            },
        };
        proof {
            assert(page_array(pages@[p as int], "issues"@) == Some(arr@));
        }
        let ghost flat0 = issues_flat(tk);
        let alen = arr.len();
        let mut j: usize = 0;
        while j < alen
            invariant
                j <= alen,
                n == pages@.len(),
                p < n,
                alen == arr@.len(),
                tk == pages@.take(p as int),
                flat0 == issues_flat(tk),
                page_array(pages@[p as int], "issues"@) == Some(arr@),
                forall|m: int| 0 <= m < j ==> issue_elem_ok(#[trigger] arr@[m]),
                ids_unique(list@),
                forall|x: int| 0 <= x < list@.len() ==> (#[trigger] list@[x]).1 is Obj,
                forall|x: int|
                    0 <= x < list@.len() ==> exists|m: int|
                        0 <= m < flat0.len() + j && page_u64(
                            #[trigger] (flat0 + arr@.take(j as int))[m],
                            "id"@,
                        ) == Some((#[trigger] list@[x]).0) && json_eq(
                            list@[x].1,
                            (flat0 + arr@.take(j as int))[m],
                        ),
                forall|m: int|
                    0 <= m < flat0.len() + j ==> issue_get(
                        list@,
                        page_u64(#[trigger] (flat0 + arr@.take(j as int))[m], "id"@)->Some_0,
                    ) is Some,
            decreases alen - j,
        {
            let v = &arr[j];
            let idv: u64 = match v.get("id") {
                Some(x) => match x.as_u64() {
                    Some(i) => i,
                    None => {
                        proof {
                            assert(!issue_elem_ok(arr@[j as int]));
                            assert(!issues_page_ok(pages@[p as int])) by {
                                if issues_page_ok(pages@[p as int]) {
                                    assert(issue_elem_ok(
                                        page_array(pages@[p as int], "issues"@)->Some_0[j as int],
                                    ));
                                }
                            }
                        }
                        return Err(Error::Fetch(String::from_str("issue has no numeric id")));
                    },
                },
                None => {
                    proof {
                        assert(!issue_elem_ok(arr@[j as int]));
                        assert(!issues_page_ok(pages@[p as int])) by {
                            if issues_page_ok(pages@[p as int]) {
                                assert(issue_elem_ok(
                                    page_array(pages@[p as int], "issues"@)->Some_0[j as int],
                                ));
                            }
                        }
                    }
                    return Err(Error::Fetch(String::from_str("issue has no numeric id")));
                },
            };
            let fresh = v.deep_clone();
            proof {
                assert(fresh is Obj);
            }
            let ghost before = list@;
            let ghost prev = flat0 + arr@.take(j as int);
            proof {
                // Record the entry facts over the pre-update list.
                assert forall|x: int| 0 <= x < before.len() implies exists|m: int|
                    0 <= m < prev.len() && page_u64(#[trigger] prev[m], "id"@) == Some(
                        (#[trigger] before[x]).0,
                    ) && json_eq(before[x].1, prev[m]) by {}
                assert forall|m: int| 0 <= m < prev.len() implies issue_get(
                    before,
                    page_u64(#[trigger] prev[m], "id"@)->Some_0,
                ) is Some by {}
            }
            // Insert or replace, keeping identifiers unique.
            let mut w: usize = 0;
            let llen = list.len();
            while w < llen && list[w].0 != idv
                invariant
                    w <= llen,
                    llen == list@.len(),
                    list@ == before,
                    forall|y: int| 0 <= y < w ==> (#[trigger] before[y]).0 != idv,
                decreases llen - w,
            {
                w = w + 1;
            }
            if w < llen {
                list[w] = (idv, fresh);
                proof {
                    assert(list@ =~= before.update(w as int, (idv, fresh)));
                    assert(forall|y: int|
                        0 <= y < before.len() ==> (#[trigger] list@[y]).0 == before[y].0);
                    assert(ids_unique(list@)) by {
                        assert forall|a: int, b: int|
                            0 <= a < b < list@.len() implies (#[trigger] list@[a]).0
                            != (#[trigger] list@[b]).0 by {
                            assert(before[a].0 != before[b].0);
                        }
                    }
                }
            } else {
                proof {
                    assert(forall|y: int| 0 <= y < before.len() ==> (#[trigger] before[y]).0
                        != idv);
                }
                list.push((idv, fresh));
                proof {
                    assert(ids_unique(list@)) by {
                        assert forall|a: int, b: int|
                            0 <= a < b < list@.len() implies (#[trigger] list@[a]).0
                            != (#[trigger] list@[b]).0 by {
                            if b < before.len() {
                                assert(list@[a] == before[a] && list@[b] == before[b]);
                            } else {
                                assert(list@[a] == before[a]);
                            }
                        }
                    }
                }
            }
            proof {
                let cur = flat0 + arr@.take(j + 1);
                assert(arr@.take(j + 1) =~= arr@.take(j as int).push(arr@[j as int]));
                assert(cur =~= prev.push(arr@[j as int]));
                assert(page_u64(arr@[j as int], "id"@) == Some(idv));
                assert(json_eq(fresh, arr@[j as int]));
                // Every list entry still descends from some page issue.
                assert forall|x: int| 0 <= x < list@.len() implies exists|m: int|
                    0 <= m < cur.len() && page_u64(#[trigger] cur[m], "id"@) == Some(
                        (#[trigger] list@[x]).0,
                    ) && json_eq(list@[x].1, cur[m]) by {
                    if list@[x].0 == idv && list@[x].1 == fresh {
                        assert(cur[cur.len() - 1] == arr@[j as int]);
                        assert(page_u64(cur[cur.len() - 1], "id"@) == Some(list@[x].0));
                    } else {
                        assert(list@[x] == before[x]);
                        let m = choose|m: int|
                            0 <= m < prev.len() && page_u64(#[trigger] prev[m], "id"@) == Some(
                                before[x].0,
                            ) && json_eq(before[x].1, prev[m]);
                        assert(cur[m] == prev[m]);
                    }
                }
                // Every page issue id seen so far has an entry.
                assert forall|m: int| 0 <= m < cur.len() implies issue_get(
                    list@,
                    page_u64(#[trigger] cur[m], "id"@)->Some_0,
                ) is Some by {
                    let d = page_u64(cur[m], "id"@)->Some_0;
                    if m < prev.len() {
                        assert(cur[m] == prev[m]);
                        assert(issue_get(before, page_u64(prev[m], "id"@)->Some_0) is Some);
                        crate::store::lemma_issue_get_in(before, d);
                        let y = choose|y: int|
                            0 <= y < before.len() && #[trigger] before[y] == (
                                d,
                                issue_get(before, d)->Some_0,
                            );
                        assert(list@[y].0 == before[y].0);
                        lemma_issue_get_some(list@, y);
                    } else {
                        assert(d == idv);
                        if w < llen {
                            assert(list@[w as int].0 == idv);
                            lemma_issue_get_some(list@, w as int);
                        } else {
                            assert(list@[list@.len() - 1].0 == idv);
                            lemma_issue_get_some(list@, list@.len() - 1);
                        }
                    }
                }
            }
            j = j + 1;
        }
        proof {
            assert(arr@.take(alen as int) =~= arr@);
            assert(issues_flat(tk1) =~= flat0 + arr@);
        }
        p = p + 1;
    }
    proof {
        assert(pages@.take(n as int) =~= pages@);
    }
    Ok(list)
}

/// A list holding a key answers lookups for it.
proof fn lemma_issue_get_some(list: Seq<(u64, JsonValue)>, y: int)
    requires
        0 <= y < list.len(),
    ensures
        issue_get(list, list[y].0) is Some,
    decreases list.len(),
{
    if list[0].0 != list[y].0 {
        assert(list.drop_first()[y - 1] == list[y]);
        lemma_issue_get_some(list.drop_first(), y - 1);
    }
}

proof fn lemma_issue_get_some_of(list: Seq<(u64, JsonValue)>, d: u64)
    requires
        exists|y: int| 0 <= y < list.len() && (#[trigger] list[y]).0 == d,
    ensures
        issue_get(list, d) is Some,
{
    let y = choose|y: int| 0 <= y < list.len() && (#[trigger] list[y]).0 == d;
    lemma_issue_get_some(list, y);
}

/// The comma-joined decimal identifiers of an id-set query.
pub open spec fn ids_joined(ids: Seq<u64>) -> Seq<char>
    decreases ids.len(),
{
    if ids.len() == 0 {
        Seq::empty()
    } else if ids.len() == 1 {
        dec_str(ids[0] as nat)
    } else {
        ids_joined(ids.drop_last()) + seq![','] + dec_str(ids.last() as nat)
    }
}

/// The one logical "list items by id-set, all statuses" query URL.
pub open spec fn issues_query_url(base: Seq<char>, ids: Seq<u64>) -> Seq<char> {
    base + "/issues.json?status_id=*&issue_id="@ + ids_joined(ids)
}

/// Builds the id-set query URL for the snapshot fetch.
pub fn build_issues_url(url: &str, ids: &Vec<u64>) -> (r: String)
    ensures
        r@ == issues_query_url(url@, ids@),
{
    let mut u = String::from_str(url);
    u.append("/issues.json?status_id=*&issue_id=");
    let mut q = String::new();
    for i in it: 0..ids.len()
        invariant
            q@ == ids_joined(ids@.take(i as int)),
    {
        proof {
            assert(ids@.take(i + 1).drop_last() =~= ids@.take(i as int));
            assert(ids@.take(i + 1).last() == ids@[i as int]);
        }
        if i > 0 {
            q.append(",");
        }
        let d = u64_to_dec_chars(ids[i]);
        let ds = crate::text::string_from_chars(&d);
        q.append(ds.as_str());
        proof {
            reveal_strlit(",");
            assert(q@ =~= ids_joined(ids@.take(i + 1)));
        }
    }
    proof {
        assert(ids@.take(ids@.len() as int) =~= ids@);
    }
    u.append(q.as_str());
    u
}

} // verus!
