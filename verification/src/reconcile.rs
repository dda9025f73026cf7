//! The reconciler: combines activity groups, fetched snapshots, and the
//! store into ordered update records, refreshing the store in memory.

use crate::activity::{group_get, group_lookup, UpdateContent};
use crate::diff::{diff_spec, get_updated_items, opt_deref};
use crate::errors::Error;
use crate::json::{fields_eq, json_eq, JsonValue};
use crate::store::{ids_unique, issue_get, snapshot_ts, snapshot_time, RedmineData};
use crate::text::{dec_str, string_from_chars, u64_to_dec_chars};
use vstd::multiset::Multiset;
use vstd::prelude::*;
use vstd::string::StringExecFns;

verus! {

/// The unit handed to the notifier: one issue's change since the last run.
pub struct UpdateInfo {
    /// Canonical URL of the issue.
    pub url: String,
    /// The issue's update time in milliseconds.
    pub local_updated_time: i64,
    /// The full new snapshot.
    pub new_issue: JsonValue,
    /// The sparse old-field map: what each field was before.
    pub old_items: JsonValue,
    /// The issue's activity items, oldest first.
    pub update_contents: Vec<UpdateContent>,
}

/// The numeric `id` field of a snapshot.
pub open spec fn issue_id_field(v: JsonValue) -> Option<u64> {
    match v.spec_get("id"@) {
        Some(x) => x.spec_as_u64(),
        None => None,
    }
}

/// The canonical URL of one issue.
pub open spec fn issue_url(base: Seq<char>, id: nat) -> Seq<char> {
    base + "/issues/"@ + dec_str(id)
}

/// A fetched snapshot from which no record can be built: it lacks a numeric
/// `id` or a parseable `updated_on`.
pub open spec fn issue_bad(v: JsonValue) -> bool {
    issue_id_field(v) is None || snapshot_ts(v) is None
}

/// The record built for one fetched snapshot.
pub open spec fn record_for(
    u: UpdateInfo,
    base: Seq<char>,
    store: Seq<(u64, JsonValue)>,
    activity: Seq<(u64, Vec<UpdateContent>)>,
    id: u64,
    v: JsonValue,
) -> bool {
    &&& json_eq(u.new_issue, v)
    &&& u.old_items is Obj
    &&& fields_eq(u.old_items->Obj_0@, diff_spec(issue_get(store, id), v))
    &&& u.local_updated_time == snapshot_ts(v)->Some_0
    &&& u.url@ == issue_url(base, issue_id_field(v)->Some_0 as nat)
    &&& u.update_contents@ == group_get(activity, id)
}

fn clone_contents(v: &Vec<UpdateContent>) -> (r: Vec<UpdateContent>)
    ensures
        r@ == v@,
{
    let mut r: Vec<UpdateContent> = Vec::new();
    for i in it: 0..v.len()
        invariant
            r@ =~= v@.take(i as int),
    {
        let x = &v[i];
        r.push(UpdateContent { author: x.author.clone(), content: x.content.clone() });
        proof {
            assert(r@ =~= v@.take(i + 1));
        }
    }
    proof {
        assert(v@.take(v@.len() as int) =~= v@);
    }
    r
}

/// Builds one update record per fetched snapshot and replaces the stored
/// snapshots, so later runs diff against the truly last-seen state.
///
/// Records come out in the order of `new_issues`; `sort_updates` puts them
/// in delivery order. Fails, leaving the store untouched, when a fetched
/// snapshot lacks a numeric `id` or a parseable `updated_on`.
pub fn refresh_updated_issues(
    prev_data: &mut RedmineData,
    url: &str,
    activity_map: &Vec<(u64, Vec<UpdateContent>)>,
    new_issues: &Vec<(u64, JsonValue)>,
) -> (r: Result<Vec<UpdateInfo>, Error>)
    requires
        old(prev_data).wf(),
        ids_unique(new_issues@),
        forall|i: int| 0 <= i < new_issues@.len() ==> (#[trigger] new_issues@[i]).1 is Obj,
    ensures
        final(prev_data).wf(),
        r is Ok <==> forall|i: int|
            0 <= i < new_issues@.len() ==> !issue_bad((#[trigger] new_issues@[i]).1),
        r matches Err(e) ==> *final(prev_data) == *old(prev_data) && e is Fetch,
        r matches Ok(updates) ==> {
            &&& updates@.len() == new_issues@.len()
            &&& forall|i: int|
                0 <= i < new_issues@.len() ==> record_for(
                    #[trigger] updates@[i],
                    url@,
                    old(prev_data).issues@,
                    activity_map@,
                    new_issues@[i].0,
                    new_issues@[i].1,
                )
            &&& final(prev_data).prev_date == old(prev_data).prev_date
            &&& forall|d: u64|
                (#[trigger] issue_get(new_issues@, d)) is Some ==> (issue_get(
                    final(prev_data).issues@,
                    d,
                ) matches Some(w) && json_eq(w, issue_get(new_issues@, d)->Some_0))
            &&& forall|d: u64|
                (#[trigger] issue_get(new_issues@, d)) is None ==> issue_get(
                    final(prev_data).issues@,
                    d,
                ) == issue_get(old(prev_data).issues@, d)
        },
{
    let n = new_issues.len();
    let mut updates: Vec<UpdateInfo> = Vec::new();
    for i in it: 0..n
        invariant
            n == new_issues@.len(),
            *prev_data == *old(prev_data),
            old(prev_data).wf(),
            forall|j: int| 0 <= j < new_issues@.len() ==> (#[trigger] new_issues@[j]).1 is Obj,
            updates@.len() == i,
            forall|j: int| 0 <= j < i ==> !issue_bad((#[trigger] new_issues@[j]).1),
            forall|j: int|
                0 <= j < i ==> record_for(
                    #[trigger] updates@[j],
                    url@,
                    old(prev_data).issues@,
                    activity_map@,
                    new_issues@[j].0,
                    new_issues@[j].1,
                ),
    {
        let id: u64 = new_issues[i].0;
        let new_issue: &JsonValue = &new_issues[i].1;
        let id_field: u64 = match new_issue.get("id") {
            Some(x) => match x.as_u64() {
                Some(n) => n,
                None => {
                    return Err(Error::Fetch(String::from_str("an issue has no numeric id")));
                },
            },
            None => {
                return Err(Error::Fetch(String::from_str("an issue has no numeric id")));
            },
        };
        let ts: i64 = match snapshot_time(new_issue) {
            Some(t) => t,
            None => {
                return Err(
                    Error::Fetch(String::from_str("an issue has no parseable updated_on")),
                );
            },
        };
        let old_issue: Option<&JsonValue> = prev_data.get_issue(id);
        proof {
            assert(opt_deref(old_issue) == issue_get(old(prev_data).issues@, id));
            if old_issue is Some {
                crate::store::lemma_issue_get_in(prev_data.issues@, id);
            }
        }
        let old_items = get_updated_items(old_issue, new_issue);
        let mut u = String::from_str(url);
        u.append("/issues/");
        let digits = u64_to_dec_chars(id_field);
        let ds = string_from_chars(&digits);
        u.append(ds.as_str());
        let contents: Vec<UpdateContent> = match group_lookup(activity_map, id) {
            Some(g) => clone_contents(g),
            None => {
                proof {
                    assert forall|j: int| 0 <= j < activity_map@.len() implies (#[trigger] activity_map@[j]).0
                        != id by {
                        if activity_map@[j].0 == id {
                            assert(crate::activity::group_contains(activity_map@, id));
                        }
                    }
                    crate::activity::lemma_group_get_absent(activity_map@, id);
                }
                Vec::new()
            },
        };
        updates.push(
            UpdateInfo {
                url: u,
                local_updated_time: ts,
                new_issue: new_issue.deep_clone(),
                old_items,
                update_contents: contents,
            },
        );
    }
    // Refresh the stored snapshots only once every record could be built.
    let mut i: usize = 0;
    while i < n
        invariant
            i <= n,
            n == new_issues@.len(),
            old(prev_data).wf(),
            prev_data.wf(),
            prev_data.prev_date == old(prev_data).prev_date,
            ids_unique(new_issues@),
            forall|j: int| 0 <= j < new_issues@.len() ==> (#[trigger] new_issues@[j]).1 is Obj,
            forall|d: u64|
                (#[trigger] issue_get(new_issues@.take(i as int), d)) is Some ==> (issue_get(
                    prev_data.issues@,
                    d,
                ) matches Some(w) && json_eq(w, issue_get(new_issues@.take(i as int), d)->Some_0)),
            forall|d: u64|
                (#[trigger] issue_get(new_issues@.take(i as int), d)) is None ==> issue_get(
                    prev_data.issues@,
                    d,
                ) == issue_get(old(prev_data).issues@, d),
        decreases n - i,
    {
        let id: u64 = new_issues[i].0;
        let fresh = new_issues[i].1.deep_clone();
        proof {
            crate::json::lemma_json_eq_refl(new_issues@[i as int].1);
        }
        let ghost before = prev_data.issues@;
        let ghost tk = new_issues@.take(i as int);
        proof {
            assert forall|d: u64|
                ((#[trigger] issue_get(tk, d)) is Some ==> (issue_get(before, d) matches Some(w)
                    && json_eq(w, issue_get(tk, d)->Some_0))) && (issue_get(tk, d) is None
                    ==> issue_get(before, d) == issue_get(old(prev_data).issues@, d)) by {}
        }
        prev_data.set_issue(id, fresh);
        proof {
            let tk1 = new_issues@.take(i + 1);
            let v_i = new_issues@[i as int].1;
            assert((id, v_i) == new_issues@[i as int]);
            assert(tk1 =~= tk.push((id, v_i)));
            assert forall|j: int| 0 <= j < tk.len() implies (#[trigger] tk[j]).0 != id by {
                assert(tk[j] == new_issues@[j]);
            }
            crate::store::lemma_issue_get_absent(tk, id);
            assert forall|d: u64|
                ((#[trigger] issue_get(tk1, d)) is Some ==> (issue_get(prev_data.issues@, d)
                    matches Some(w) && json_eq(w, issue_get(tk1, d)->Some_0))) && (issue_get(
                    tk1,
                    d,
                ) is None ==> issue_get(prev_data.issues@, d) == issue_get(
                    old(prev_data).issues@,
                    d,
                )) by {
                crate::store::lemma_issue_get_push(tk, id, v_i, d);
                if issue_get(tk, d) is Some {
                    assert(d != id);
                    assert(issue_get(tk1, d) == issue_get(tk, d));
                    assert(issue_get(prev_data.issues@, d) == issue_get(before, d));
                } else if d == id {
                    assert(issue_get(tk1, d) == Some(v_i));
                    assert(issue_get(prev_data.issues@, d) matches Some(w) && json_eq(w, v_i));
                } else {
                    assert(issue_get(tk1, d) is None);
                    assert(issue_get(prev_data.issues@, d) == issue_get(before, d));
                    assert(issue_get(before, d) == issue_get(old(prev_data).issues@, d));
                }
            }
        }
        i = i + 1;
    }
    proof {
        assert(new_issues@.take(n as int) =~= new_issues@);
    }
    Ok(updates)
}

/// Whether the records are in delivery order: update times ascending.
pub open spec fn updates_sorted(s: Seq<UpdateInfo>) -> bool {
    forall|p: int, q: int|
        0 <= p < q < s.len() ==> (#[trigger] s[p]).local_updated_time
            <= (#[trigger] s[q]).local_updated_time
}

/// Sorts the records by update time ascending: the delivery order required
/// by consumers that render a chronological feed. The records themselves are
/// exactly those given.
pub fn sort_updates(updates: &mut Vec<UpdateInfo>)
    ensures
        updates_sorted(final(updates)@),
        final(updates)@.to_multiset() == old(updates)@.to_multiset(),
{
    broadcast use vstd::seq_lib::group_to_multiset_ensures;

    let mut sorted: Vec<UpdateInfo> = Vec::new();
    while updates.len() > 0
        invariant
            updates_sorted(sorted@),
            sorted@.to_multiset().add(updates@.to_multiset()) == old(updates)@.to_multiset(),
            forall|p: int, q: int|
                0 <= p < sorted@.len() && 0 <= q < updates@.len() ==> (#[trigger] sorted@[p]).local_updated_time
                    <= (#[trigger] updates@[q]).local_updated_time,
        decreases updates@.len(),
    {
        let mut min: usize = 0;
        let m = updates.len();
        for j in jt: 1..m
            invariant
                m == updates@.len(),
                min < m,
                forall|q: int|
                    0 <= q < j ==> (#[trigger] updates@[q]).local_updated_time
                        >= updates@[min as int].local_updated_time,
        {
            if updates[j].local_updated_time < updates[min].local_updated_time {
                min = j;
            }
        }
        let ghost before = updates@;
        let ghost sorted_before = sorted@;
        let u = updates.remove(min);
        proof {
            assert(updates@ =~= before.remove(min as int));
            before.to_multiset_ensures();
            assert(updates@.to_multiset() =~= before.to_multiset().remove(u));
            assert(before.contains(u)) by {
                assert(before[min as int] == u);
            }
            assert(before.to_multiset().count(u) > 0);
            assert forall|q: int|
                0 <= q < updates@.len() implies (#[trigger] updates@[q]).local_updated_time
                >= u.local_updated_time by {
                if q < min as int {
                    assert(updates@[q] == before[q]);
                } else {
                    assert(updates@[q] == before[q + 1]);
                }
            }
        }
        sorted.push(u);
        proof {
            sorted_before.to_multiset_ensures();
            assert(sorted@ =~= sorted_before.push(u));
            assert(sorted@.to_multiset() =~= sorted_before.to_multiset().insert(u));
            assert(sorted@.to_multiset().add(updates@.to_multiset()) =~= sorted_before.to_multiset().add(
                before.to_multiset(),
            ));
        }
    }
    proof {
        assert(updates@.to_multiset() =~= Multiset::<UpdateInfo>::empty());
        assert(sorted@.to_multiset().add(Multiset::empty()) =~= sorted@.to_multiset());
    }
    *updates = sorted;
}

} // verus!
