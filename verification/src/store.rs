//! The durable snapshot store and the retention policy.
//!
//! The store owns the cursor and a mapping from issue identifier to its
//! last-observed full snapshot. It is loaded once per run, mutated in
//! memory, and written back exactly once at the end of a successful run.

use crate::errors::Error;
use crate::json::JsonValue;
use crate::time::{parse_rfc3339_ms, rfc3339_ms, MIN_TIME_MS};
use vstd::prelude::*;
use vstd::string::StringExecFns;

verus! {

/// Retention window for closed snapshots, in milliseconds (50 days).
pub const RETENTION_MS: i64 = 4_320_000_000;

/// Identifiers in the association list are pairwise distinct.
pub open spec fn ids_unique(issues: Seq<(u64, JsonValue)>) -> bool {
    forall|i: int, j: int|
        0 <= i < j < issues.len() ==> (#[trigger] issues[i]).0 != (#[trigger] issues[j]).0
}

/// The first snapshot bound to `id`, or `None`.
pub open spec fn issue_get(issues: Seq<(u64, JsonValue)>, id: u64) -> Option<JsonValue>
    decreases issues.len(),
{
    if issues.len() == 0 {
        None
    } else if issues[0].0 == id {
        Some(issues[0].1)
    } else {
        issue_get(issues.drop_first(), id)
    }
}

pub proof fn lemma_issue_get_first(issues: Seq<(u64, JsonValue)>, i: int)
    requires
        0 <= i < issues.len(),
        forall|j: int| 0 <= j < i ==> (#[trigger] issues[j]).0 != issues[i].0,
    ensures
        issue_get(issues, issues[i].0) == Some(issues[i].1),
    decreases issues.len(),
{
    if i > 0 {
        assert(issues[0].0 != issues[i].0);
        assert forall|j: int|
            0 <= j < i - 1 implies (#[trigger] issues.drop_first()[j]).0 != issues.drop_first()[i
            - 1].0 by {
            assert(issues.drop_first()[j] == issues[j + 1]);
        }
        lemma_issue_get_first(issues.drop_first(), i - 1);
        assert(issues.drop_first()[i - 1] == issues[i]);
    }
}

pub proof fn lemma_issue_get_absent(issues: Seq<(u64, JsonValue)>, id: u64)
    requires
        forall|j: int| 0 <= j < issues.len() ==> (#[trigger] issues[j]).0 != id,
    ensures
        issue_get(issues, id) is None,
    decreases issues.len(),
{
    if issues.len() > 0 {
        assert forall|j: int|
            0 <= j < issues.drop_first().len() implies (#[trigger] issues.drop_first()[j]).0
            != id by {
            assert(issues.drop_first()[j] == issues[j + 1]);
        }
        lemma_issue_get_absent(issues.drop_first(), id);
    }
}

proof fn lemma_issue_get_update(issues: Seq<(u64, JsonValue)>, i: int, v: JsonValue, d: u64)
    requires
        0 <= i < issues.len(),
        d != issues[i].0,
    ensures
        issue_get(issues.update(i, (issues[i].0, v)), d) == issue_get(issues, d),
    decreases issues.len(),
{
    let s2 = issues.update(i, (issues[i].0, v));
    if i == 0 {
        assert(s2.drop_first() =~= issues.drop_first());
    } else {
        if issues[0].0 != d {
            assert(s2.drop_first() =~= issues.drop_first().update(i - 1, (issues[i].0, v)));
            assert(issues.drop_first()[i - 1] == issues[i]);
            lemma_issue_get_update(issues.drop_first(), i - 1, v, d);
        }
    }
}

pub proof fn lemma_issue_get_push(issues: Seq<(u64, JsonValue)>, id: u64, v: JsonValue, d: u64)
    ensures
        issue_get(issues.push((id, v)), d) == if issue_get(issues, d) is Some {
            issue_get(issues, d)
        } else if d == id {
            Some(v)
        } else {
            None::<JsonValue>
        },
    decreases issues.len(),
{
    if issues.len() == 0 {
        assert(issues.push((id, v)).drop_first() =~= Seq::<(u64, JsonValue)>::empty());
    } else {
        assert(issues.push((id, v)).drop_first() =~= issues.drop_first().push((id, v)));
        lemma_issue_get_push(issues.drop_first(), id, v, d);
    }
}

/// A found snapshot is one of the stored entries.
pub proof fn lemma_issue_get_in(issues: Seq<(u64, JsonValue)>, id: u64)
    ensures
        issue_get(issues, id) matches Some(v) ==> exists|i: int|
            0 <= i < issues.len() && #[trigger] issues[i] == (id, v),
    decreases issues.len(),
{
    if issues.len() > 0 {
        if issues[0].0 == id {
            assert(issues[0] == (id, issues[0].1));
        } else {
            lemma_issue_get_in(issues.drop_first(), id);
            if issue_get(issues, id) is Some {
                let v = issue_get(issues, id)->Some_0;
                let i = choose|i: int|
                    0 <= i < issues.drop_first().len() && #[trigger] issues.drop_first()[i] == (
                        id,
                        v,
                    );
                assert(issues[i + 1] == (id, v));
            }
        }
    }
}

/// The durable state: the cursor and the last-observed snapshot of every
/// tracked issue.
pub struct RedmineData {
    /// The cursor: the latest processed activity time.
    pub prev_date: i64,
    /// Identifier-keyed snapshots, identifiers pairwise distinct.
    pub issues: Vec<(u64, JsonValue)>,
}

impl RedmineData {
    /// Well-formedness: distinct identifiers, and every snapshot an object.
    pub open spec fn wf(self) -> bool {
        &&& ids_unique(self.issues@)
        &&& forall|i: int| 0 <= i < self.issues@.len() ==> (#[trigger] self.issues@[i]).1 is Obj
    }

    /// The store of a first run: minimum cursor, no snapshots.
    pub fn empty() -> (r: RedmineData)
        ensures
            r.wf(),
            r.prev_date == MIN_TIME_MS,
            r.issues@.len() == 0,
    {
        RedmineData { prev_date: MIN_TIME_MS, issues: Vec::new() }
    }

    /// Looks the last-observed snapshot of `id` up.
    pub fn get_issue(&self, id: u64) -> (r: Option<&JsonValue>)
        ensures
            match r {
                Some(v) => issue_get(self.issues@, id) == Some(*v),
                None => issue_get(self.issues@, id) is None,
            },
    {
        for i in it: 0..self.issues.len()
            invariant
                forall|j: int| 0 <= j < i ==> (#[trigger] self.issues@[j]).0 != id,
        {
            if self.issues[i].0 == id {
                proof {
                    lemma_issue_get_first(self.issues@, i as int);
                }
                return Some(&self.issues[i].1);
            }
        }
        proof {
            lemma_issue_get_absent(self.issues@, id);
        }
        None
    }

    /// Replaces (or adds) the last-observed snapshot of `id`.
    pub fn set_issue(&mut self, id: u64, v: JsonValue)
        requires
            old(self).wf(),
            v is Obj,
        ensures
            final(self).wf(),
            final(self).prev_date == old(self).prev_date,
            issue_get(final(self).issues@, id) == Some(v),
            forall|d: u64| d != id ==> issue_get(final(self).issues@, d) == issue_get(
                old(self).issues@,
                d,
            ),
            final(self).issues@.len() <= old(self).issues@.len() + 1,
    {
        let n = self.issues.len();
        for i in it: 0..n
            invariant
                n == self.issues@.len(),
                *self == *old(self),
                old(self).wf(),
                v is Obj,
                forall|j: int| 0 <= j < i ==> (#[trigger] self.issues@[j]).0 != id,
        {
            if self.issues[i].0 == id {
                proof {
                    lemma_issue_get_first(self.issues@, i as int);
                }
                self.issues[i] = (id, v);
                proof {
                    let s = old(self).issues@;
                    assert(self.issues@ =~= s.update(i as int, (s[i as int].0, v)));
                    assert(forall|k: int|
                        0 <= k < s.len() ==> (#[trigger] self.issues@[k]).0 == s[k].0);
                    assert(ids_unique(self.issues@)) by {
                        assert forall|p: int, q: int|
                            0 <= p < q < self.issues@.len() implies (#[trigger] self.issues@[p]).0
                            != (#[trigger] self.issues@[q]).0 by {
                            assert(s[p].0 != s[q].0);
                        }
                    }
                    assert forall|k: int|
                        0 <= k < self.issues@.len() implies (#[trigger] self.issues@[k]).1
                        is Obj by {
                        if k != i as int {
                            assert(self.issues@[k] == s[k]);
                        }
                    }
                    lemma_issue_get_first(self.issues@, i as int);
                    assert forall|d: u64| d != id implies issue_get(self.issues@, d) == issue_get(
                        s,
                        d,
                    ) by {
                        lemma_issue_get_update(s, i as int, v, d);
                    }
                }
                return ;
            }
        }
        proof {
            lemma_issue_get_absent(self.issues@, id);
        }
        self.issues.push((id, v));
        proof {
            let s = old(self).issues@;
            assert(self.issues@ =~= s.push((id, v)));
            lemma_issue_get_push(s, id, v, id);
            assert forall|d: u64| d != id implies issue_get(self.issues@, d) == issue_get(
                s,
                d,
            ) by {
                lemma_issue_get_push(s, id, v, d);
            }
            assert forall|i: int, j: int|
                0 <= i < j < self.issues@.len() implies (#[trigger] self.issues@[i]).0
                != (#[trigger] self.issues@[j]).0 by {
                if j == s.len() as int {
                    assert(self.issues@[i] == s[i]);
                }
            }
        }
    }
}

/// The update time recorded in a snapshot: its `updated_on` field parsed as
/// RFC 3339.
pub open spec fn snapshot_ts(v: JsonValue) -> Option<i64> {
    match v.spec_get("updated_on"@) {
        Some(u) => match u.spec_as_str() {
            Some(s) => rfc3339_ms(s),
            None => None,
        },
        None => None,
    }
}

/// Whether a snapshot's status marks it closed: its `status.is_closed` field.
pub open spec fn snapshot_closed(v: JsonValue) -> Option<bool> {
    match v.spec_get("status"@) {
        Some(st) => match st.spec_get("is_closed"@) {
            Some(b) => b.spec_as_bool(),
            None => None,
        },
        None => None,
    }
}

/// Reads the update time of a snapshot.
pub fn snapshot_time(v: &JsonValue) -> (r: Option<i64>)
    ensures
        r == snapshot_ts(*v),
{
    match v.get("updated_on") {
        Some(u) => match u.as_str() {
            Some(s) => parse_rfc3339_ms(s.as_str()),
            None => None,
        },
        None => None,
    }
}

/// Reads whether a snapshot is closed.
pub fn snapshot_is_closed(v: &JsonValue) -> (r: Option<bool>)
    ensures
        r == snapshot_closed(*v),
{
    match v.get("status") {
        Some(st) => match st.get("is_closed") {
            Some(b) => b.as_bool(),
            None => None,
        },
        None => None,
    }
}

/// Every stored snapshot carries a parseable update time.
pub open spec fn all_ts_ok(issues: Seq<(u64, JsonValue)>) -> bool {
    forall|i: int| 0 <= i < issues.len() ==> snapshot_ts((#[trigger] issues[i]).1) is Some
}

/// Every stored snapshot tells whether it is closed.
pub open spec fn all_closed_ok(issues: Seq<(u64, JsonValue)>) -> bool {
    forall|i: int| 0 <= i < issues.len() ==> snapshot_closed((#[trigger] issues[i]).1) is Some
}

/// The greatest update time over the stored snapshots (meaningful when
/// `all_ts_ok` holds and the store is non-empty).
pub open spec fn max_ts(issues: Seq<(u64, JsonValue)>) -> Option<i64>
    decreases issues.len(),
{
    if issues.len() == 0 {
        None
    } else {
        let t = snapshot_ts(issues.last().1)->Some_0;
        match max_ts(issues.drop_last()) {
            None => Some(t),
            Some(m) => Some(
                if t > m {
                    t
                } else {
                    m
                },
            ),
        }
    }
}

/// The cursor after a purge: the maximum stored update time, or the old
/// cursor when nothing is stored.
pub open spec fn advanced_cursor(issues: Seq<(u64, JsonValue)>, cursor: i64) -> i64 {
    if issues.len() == 0 {
        cursor
    } else {
        max_ts(issues)->Some_0
    }
}

/// The retention boundary below the advanced cursor.
pub open spec fn boundary_of(cursor: i64) -> i64 {
    if cursor - RETENTION_MS >= i64::MIN {
        (cursor - RETENTION_MS) as i64
    } else {
        i64::MIN
    }
}

/// Does the retention policy keep this snapshot? A snapshot is kept when its
/// update time is after the boundary, or when it is still open.
pub open spec fn keep_spec(v: JsonValue, boundary: i64) -> bool {
    snapshot_ts(v)->Some_0 > boundary || snapshot_closed(v)->Some_0 == false
}

/// The stored snapshots that survive a purge with the given boundary, in
/// store order.
pub open spec fn filter_keep(issues: Seq<(u64, JsonValue)>, boundary: i64) -> Seq<
    (u64, JsonValue),
>
    decreases issues.len(),
{
    if issues.len() == 0 {
        Seq::empty()
    } else {
        filter_keep(issues.drop_last(), boundary) + if keep_spec(issues.last().1, boundary) {
            seq![issues.last()]
        } else {
            Seq::empty()
        }
    }
}

/// A snapshot survives the purge exactly when it was stored and the policy
/// keeps it.
pub proof fn lemma_filter_keep_contains(s: Seq<(u64, JsonValue)>, b: i64, x: (u64, JsonValue))
    ensures
        filter_keep(s, b).contains(x) <==> s.contains(x) && keep_spec(x.1, b),
    decreases s.len(),
{
    if s.len() > 0 {
        lemma_filter_keep_contains(s.drop_last(), b, x);
        let f = filter_keep(s, b);
        let fd = filter_keep(s.drop_last(), b);
        if f.contains(x) {
            let i = choose|i: int| 0 <= i < f.len() && f[i] == x;
            if i < fd.len() {
                assert(fd[i] == x);
                let j = choose|j: int| 0 <= j < s.drop_last().len() && s.drop_last()[j] == x;
                assert(s[j] == x);
            } else {
                assert(x == s.last());
                assert(s[s.len() - 1] == x);
            }
        }
        if s.contains(x) && keep_spec(x.1, b) {
            let j = choose|j: int| 0 <= j < s.len() && s[j] == x;
            if j < s.len() - 1 {
                assert(s.drop_last()[j] == x);
                let i = choose|i: int| 0 <= i < fd.len() && fd[i] == x;
                assert(f[i] == x);
            } else {
                assert(x == s.last());
                assert(f[f.len() - 1] == x);
            }
        }
    }
}

proof fn lemma_filter_keep_wf(s: Seq<(u64, JsonValue)>, b: i64)
    requires
        ids_unique(s),
        forall|i: int| 0 <= i < s.len() ==> (#[trigger] s[i]).1 is Obj,
    ensures
        ids_unique(filter_keep(s, b)),
        forall|i: int|
            0 <= i < filter_keep(s, b).len() ==> (#[trigger] filter_keep(s, b)[i]).1 is Obj,
    decreases s.len(),
{
    if s.len() > 0 {
        let dl = s.drop_last();
        assert forall|p: int, q: int|
            0 <= p < q < dl.len() implies (#[trigger] dl[p]).0 != (#[trigger] dl[q]).0 by {
            assert(s[p].0 != s[q].0);
        }
        assert forall|i: int| 0 <= i < dl.len() implies (#[trigger] dl[i]).1 is Obj by {
            assert(s[i].1 is Obj);
        }
        lemma_filter_keep_wf(dl, b);
        let f = filter_keep(s, b);
        let fd = filter_keep(dl, b);
        if keep_spec(s.last().1, b) {
            assert forall|p: int, q: int|
                0 <= p < q < f.len() implies (#[trigger] f[p]).0 != (#[trigger] f[q]).0 by {
                if q == f.len() - 1 {
                    assert(f[p] == fd[p]);
                    assert(fd.contains(fd[p]));
                    lemma_filter_keep_contains(dl, b, fd[p]);
                    let j = choose|j: int| 0 <= j < dl.len() && dl[j] == fd[p];
                    assert(s[j].0 != s.last().0);
                }
            }
            assert forall|i: int| 0 <= i < f.len() implies (#[trigger] f[i]).1 is Obj by {
                if i < fd.len() {
                    assert(f[i] == fd[i]);
                }
            }
        }
    }
}

/// The maximum stored update time is at least each stored update time.
pub proof fn lemma_max_ts_ge(issues: Seq<(u64, JsonValue)>, i: int)
    requires
        0 <= i < issues.len(),
    ensures
        max_ts(issues) matches Some(m) && m >= snapshot_ts(issues[i].1)->Some_0,
    decreases issues.len(),
{
    if i < issues.len() - 1 {
        assert(issues.drop_last()[i] == issues[i]);
        lemma_max_ts_ge(issues.drop_last(), i);
    }
}

/// The persisted cursor is monotonically non-decreasing: advancing it to the
/// maximum stored update time never moves it backwards, provided the store is
/// empty or some stored snapshot was updated at or after the old cursor.
pub proof fn lemma_cursor_monotonic(issues: Seq<(u64, JsonValue)>, cursor: i64)
    requires
        issues.len() == 0 || exists|i: int|
            0 <= i < issues.len() && snapshot_ts((#[trigger] issues[i]).1)->Some_0 >= cursor,
    ensures
        advanced_cursor(issues, cursor) >= cursor,
{
    if issues.len() > 0 {
        let i = choose|i: int|
            0 <= i < issues.len() && snapshot_ts((#[trigger] issues[i]).1)->Some_0 >= cursor;
        lemma_max_ts_ge(issues, i);
    }
}

/// The retention policy, case by case: a closed snapshot at or before the
/// boundary is dropped; a snapshot updated after the boundary is kept; an
/// open snapshot is kept regardless of age.
pub proof fn lemma_retention_policy(v: JsonValue, boundary: i64)
    requires
        snapshot_ts(v) is Some,
        snapshot_closed(v) is Some,
    ensures
        snapshot_closed(v) == Some(true) && snapshot_ts(v)->Some_0 <= boundary ==> !keep_spec(
            v,
            boundary,
        ),
        snapshot_ts(v)->Some_0 > boundary ==> keep_spec(v, boundary),
        snapshot_closed(v) == Some(false) ==> keep_spec(v, boundary),
{
}

impl RedmineData {
    /// Advances the cursor to the maximum stored update time, then drops
    /// every stored snapshot that is both closed and at or before the
    /// retention boundary (the advanced cursor minus the retention window).
    ///
    /// Fails, leaving the store untouched, when a stored snapshot lacks a
    /// parseable `updated_on`, or — when a purge is due — lacks
    /// `status.is_closed`.
    pub fn purge_expired(&mut self) -> (r: Result<(), Error>)
        requires
            old(self).wf(),
        ensures
            final(self).wf(),
            r is Ok <==> all_ts_ok(old(self).issues@) && (advanced_cursor(
                old(self).issues@,
                old(self).prev_date,
            ) > MIN_TIME_MS ==> all_closed_ok(old(self).issues@)),
            r matches Err(e) ==> *final(self) == *old(self) && e is State,
            r is Ok ==> {
                let c = advanced_cursor(old(self).issues@, old(self).prev_date);
                &&& final(self).prev_date == c
                &&& final(self).issues@ == if c > MIN_TIME_MS {
                    filter_keep(old(self).issues@, boundary_of(c))
                } else {
                    old(self).issues@
                }
            },
    {
        let n = self.issues.len();
        let mut max: Option<i64> = None;
        for k in kt: 0..n
            invariant
                n == self.issues@.len(),
                *self == *old(self),
                old(self).wf(),
                forall|j: int| 0 <= j < k ==> snapshot_ts((#[trigger] self.issues@[j]).1) is Some,
                max == max_ts(self.issues@.take(k as int)),
        {
            match snapshot_time(&self.issues[k].1) {
                None => {
                    return Err(
                        Error::State(
                            String::from_str("a stored snapshot has no parseable updated_on"),
                        ),
                    );
                },
                Some(t) => {
                    proof {
                        assert(self.issues@.take(k + 1).drop_last() =~= self.issues@.take(
                            k as int,
                        ));
                        assert(self.issues@.take(k + 1).last() == self.issues@[k as int]);
                    }
                    max = match max {
                        None => Some(t),
                        Some(m) => Some(
                            if t > m {
                                t
                            } else {
                                m
                            },
                        ),
                    };
                },
            }
        }
        proof {
            assert(self.issues@.take(n as int) =~= self.issues@);
        }
        let cand: i64 = match max {
            Some(m) => m,
            None => self.prev_date,
        };
        if cand <= MIN_TIME_MS {
            self.prev_date = cand;
            return Ok(());
        }
        for k in kt: 0..n
            invariant
                n == self.issues@.len(),
                *self == *old(self),
                old(self).wf(),
                all_ts_ok(self.issues@),
                cand == advanced_cursor(old(self).issues@, old(self).prev_date),
                cand > MIN_TIME_MS,
                forall|j: int|
                    0 <= j < k ==> snapshot_closed((#[trigger] self.issues@[j]).1) is Some,
        {
            if snapshot_is_closed(&self.issues[k].1).is_none() {
                return Err(
                    Error::State(String::from_str("a stored snapshot has no status.is_closed")),
                );
            }
        }
        let boundary: i64 = if cand >= i64::MIN + RETENTION_MS {
            cand - RETENTION_MS
        } else {
            i64::MIN
        };
        proof {
            assert(boundary == boundary_of(cand));
        }
        self.prev_date = cand;
        let ghost orig = old(self).issues@;
        let mut k: usize = 0;
        let mut i: usize = 0;
        while k < n
            invariant
                k <= n,
                n == orig.len(),
                self.prev_date == cand,
                all_ts_ok(orig),
                all_closed_ok(orig),
                boundary == boundary_of(cand),
                self.issues@ =~= filter_keep(orig.take(k as int), boundary) + orig.skip(k as int),
                i as int == filter_keep(orig.take(k as int), boundary).len(),
                i <= k,
            decreases n - k,
        {
            proof {
                assert(self.issues@[i as int] == orig.skip(k as int)[0]);
                assert(orig.skip(k as int)[0] == orig[k as int]);
                assert(orig.take(k + 1).drop_last() =~= orig.take(k as int));
                assert(orig.take(k + 1).last() == orig[k as int]);
            }
            let t: i64 = match snapshot_time(&self.issues[i].1) {
                Some(t) => t,
                None => vstd::pervasive::unreached(),
            };
            let keep: bool = if t > boundary {
                true
            } else {
                match snapshot_is_closed(&self.issues[i].1) {
                    Some(c) => !c,
                    None => vstd::pervasive::unreached(),
                }
            };
            if keep {
                i = i + 1;
            } else {
                let ghost before = self.issues@;
                let _ = self.issues.remove(i);
                proof {
                    assert(self.issues@ =~= before.remove(i as int));
                    assert(self.issues@ =~= filter_keep(orig.take(k + 1), boundary) + orig.skip(
                        k + 1,
                    ));
                }
            }
            k = k + 1;
        }
        proof {
            assert(orig.take(n as int) =~= orig);
            assert(orig.skip(n as int) =~= Seq::<(u64, JsonValue)>::empty());
            assert(self.issues@ =~= filter_keep(orig, boundary));
            assert forall|q: int| 0 <= q < orig.len() implies (#[trigger] orig[q]).1 is Obj by {
                assert(old(self).issues@[q].1 is Obj);
            }
            lemma_filter_keep_wf(orig, boundary);
        }
        Ok(())
    }
}

} // verus!
