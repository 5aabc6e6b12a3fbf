//! The task lifecycle engine over an in-memory task table.
//!
//! Persistence mechanics are not this library's subject: the store holds
//! its records in a vector, in insertion order, and every operation takes
//! the present instant as an argument.  "Overdue" is never kept fresh by a
//! background clock; it is reconciled lazily, at observation time, by the
//! sweep the reading operations run first.

use vstd::prelude::*;

use crate::model::status_code;
use crate::model::status_of_name;
use crate::model::status_from_name;
use crate::model::terminal_code;
use crate::model::valid_status_code;
use crate::model::StorageError;
use crate::model::Task;
use crate::model::TaskStatus;
use crate::model::TaskUpdate;
use crate::model::ValidationError;
use crate::parse::parse_search_value;
use crate::parse::parse_spec;
use crate::sort::sort_by_score;
use crate::sort::sorted_by_score;
use crate::text::contains_ci;
use crate::text::contains_seq;
use crate::text::lower;
use crate::text::str_eq;

verus! {

/// The lazy overdue reconciliation of one record: a task that is neither
/// `Done` nor `Deleted`, has a deadline, and whose deadline lies in the
/// past, is promoted to `Overdue`; any other task is left as it is.
pub open spec fn sweep_task(t: Task, now: i64) -> Task {
    if !terminal_code(t.status) && t.due is Some && t.due->0 < now {
        Task { status: status_code(TaskStatus::Overdue), ..t }
    } else {
        t
    }
}

/// Reconciliation applied to one record only where its id matches.
pub open spec fn sweep_match_task(t: Task, id: Seq<char>, now: i64) -> Task {
    if t.id@ == id {
        sweep_task(t, now)
    } else {
        t
    }
}

/// The whole table reconciled.
pub open spec fn sweep_all(s: Seq<Task>, now: i64) -> Seq<Task> {
    s.map_values(|t: Task| sweep_task(t, now))
}

/// The table reconciled at the records with the given id.
pub open spec fn sweep_matching(s: Seq<Task>, id: Seq<char>, now: i64) -> Seq<Task> {
    s.map_values(|t: Task| sweep_match_task(t, id, now))
}

/// Reconciliation applied to one record only where its name matches.
pub open spec fn sweep_name_task(t: Task, name: Seq<char>, now: i64) -> Task {
    if t.name@ == name {
        sweep_task(t, now)
    } else {
        t
    }
}

/// The table reconciled at the records with the given name.
pub open spec fn sweep_matching_name(s: Seq<Task>, name: Seq<char>, now: i64) -> Seq<Task> {
    s.map_values(|t: Task| sweep_name_task(t, name, now))
}

/// A record an id-targeted sweep would rewrite.
pub open spec fn sweepable(t: Task, id: Seq<char>, now: i64) -> bool {
    t.id@ == id && !terminal_code(t.status) && t.due is Some && t.due->0 < now
}

/// How many records an id-targeted sweep rewrites.
pub open spec fn sweep_count(s: Seq<Task>, id: Seq<char>, now: i64) -> int
    decreases s.len(),
{
    if s.len() == 0 {
        0
    } else {
        sweep_count(s.drop_last(), id, now) + (if sweepable(s.last(), id, now) {
            1int
        } else {
            0int
        })
    }
}

/// What any observer may rely on right after a reconciling read returns a
/// record: a live task with a past deadline shows `Overdue`.
pub open spec fn observed_consistent(t: Task, now: i64) -> bool {
    (!terminal_code(t.status) && t.due is Some && t.due->0 < now) ==> t.status == status_code(
        TaskStatus::Overdue,
    )
}

/// The position of the first record with the given id.
pub open spec fn idx_of_id(s: Seq<Task>, id: Seq<char>) -> Option<int>
    decreases s.len(),
{
    if s.len() == 0 {
        None
    } else if s[0].id@ == id {
        Some(0int)
    } else {
        match idx_of_id(s.drop_first(), id) {
            Some(i) => Some(i + 1),
            None => None,
        }
    }
}

/// The position of the first record with the given name.
pub open spec fn idx_of_name(s: Seq<Task>, name: Seq<char>) -> Option<int>
    decreases s.len(),
{
    if s.len() == 0 {
        None
    } else if s[0].name@ == name {
        Some(0int)
    } else {
        match idx_of_name(s.drop_first(), name) {
            Some(i) => Some(i + 1),
            None => None,
        }
    }
}

/// The first record with the given id, if any.
pub open spec fn find_by_id_spec(s: Seq<Task>, id: Seq<char>) -> Option<Task> {
    match idx_of_id(s, id) {
        Some(i) => Some(s[i]),
        None => None,
    }
}

/// The first record with the given name, if any.
pub open spec fn find_by_name_spec(s: Seq<Task>, name: Seq<char>) -> Option<Task> {
    match idx_of_name(s, name) {
        Some(i) => Some(s[i]),
        None => None,
    }
}

/// What `idx_of_id` finds is the first match.
pub proof fn lemma_idx_of_id(s: Seq<Task>, id: Seq<char>)
    ensures
        idx_of_id(s, id) is Some ==> 0 <= idx_of_id(s, id)->0 < s.len(),
        idx_of_id(s, id) is Some ==> s[idx_of_id(s, id)->0].id@ == id,
        idx_of_id(s, id) is Some ==> forall|k: int|
            0 <= k < idx_of_id(s, id)->0 ==> (#[trigger] s[k]).id@ != id,
        idx_of_id(s, id) is None ==> forall|k: int|
            0 <= k < s.len() ==> (#[trigger] s[k]).id@ != id,
    decreases s.len(),
{
    if s.len() == 0 {
    } else if s[0].id@ == id {
    } else {
        lemma_idx_of_id(s.drop_first(), id);
        assert(forall|k: int| 1 <= k < s.len() ==> #[trigger] s[k] == s.drop_first()[k - 1]);
    }
}

/// A first match observed in the table is what `idx_of_id` finds.
pub proof fn lemma_idx_of_id_is(s: Seq<Task>, id: Seq<char>, i: int)
    requires
        0 <= i < s.len(),
        s[i].id@ == id,
        forall|k: int| 0 <= k < i ==> (#[trigger] s[k]).id@ != id,
    ensures
        idx_of_id(s, id) == Some(i),
    decreases s.len(),
{
    if i == 0 {
    } else {
        assert(s[0].id@ != id);
        assert(forall|k: int| 1 <= k < s.len() ==> #[trigger] s[k] == s.drop_first()[k - 1]);
        lemma_idx_of_id_is(s.drop_first(), id, i - 1);
    }
}

/// A table without the id has no first match.
pub proof fn lemma_idx_of_id_none(s: Seq<Task>, id: Seq<char>)
    requires
        forall|k: int| 0 <= k < s.len() ==> (#[trigger] s[k]).id@ != id,
    ensures
        idx_of_id(s, id) is None,
    decreases s.len(),
{
    if s.len() == 0 {
    } else {
        assert(forall|k: int| 1 <= k < s.len() ==> #[trigger] s[k] == s.drop_first()[k - 1]);
        lemma_idx_of_id_none(s.drop_first(), id);
    }
}

/// The name counterparts of the id lemmas.
pub proof fn lemma_idx_of_name_is(s: Seq<Task>, name: Seq<char>, i: int)
    requires
        0 <= i < s.len(),
        s[i].name@ == name,
        forall|k: int| 0 <= k < i ==> (#[trigger] s[k]).name@ != name,
    ensures
        idx_of_name(s, name) == Some(i),
    decreases s.len(),
{
    if i == 0 {
    } else {
        assert(s[0].name@ != name);
        assert(forall|k: int| 1 <= k < s.len() ==> #[trigger] s[k] == s.drop_first()[k - 1]);
        lemma_idx_of_name_is(s.drop_first(), name, i - 1);
    }
}

pub proof fn lemma_idx_of_name_none(s: Seq<Task>, name: Seq<char>)
    requires
        forall|k: int| 0 <= k < s.len() ==> (#[trigger] s[k]).name@ != name,
    ensures
        idx_of_name(s, name) is None,
    decreases s.len(),
{
    if s.len() == 0 {
    } else {
        assert(forall|k: int| 1 <= k < s.len() ==> #[trigger] s[k] == s.drop_first()[k - 1]);
        lemma_idx_of_name_none(s.drop_first(), name);
    }
}

/// A name-targeted sweep changes no name, so what fetch-by-name finds
/// afterwards is exactly the reconciled first match of before.
pub proof fn lemma_sweep_name_find(s: Seq<Task>, name: Seq<char>, now: i64)
    ensures
        find_by_name_spec(sweep_matching_name(s, name, now), name) == (
        match find_by_name_spec(s, name) {
            Some(t) => Some(sweep_task(t, now)),
            None => None,
        }),
{
    let swept = sweep_matching_name(s, name, now);
    assert(swept.len() == s.len());
    assert(forall|k: int|
        0 <= k < s.len() ==> (#[trigger] swept[k]).name@ == (#[trigger] s[k]).name@);
    lemma_idx_of_name(s, name);
    match idx_of_name(s, name) {
        Some(i) => {
            assert(forall|k: int| 0 <= k < i ==> (#[trigger] swept[k]).name@ != name);
            lemma_idx_of_name_is(swept, name, i);
            assert(swept[i] == sweep_name_task(s[i], name, now));
        },
        None => {
            assert(forall|k: int| 0 <= k < swept.len() ==> (#[trigger] swept[k]).name@ != name);
            lemma_idx_of_name_none(swept, name);
        },
    }
}

/// What `idx_of_name` finds is the first match.
pub proof fn lemma_idx_of_name(s: Seq<Task>, name: Seq<char>)
    ensures
        idx_of_name(s, name) is Some ==> 0 <= idx_of_name(s, name)->0 < s.len(),
        idx_of_name(s, name) is Some ==> s[idx_of_name(s, name)->0].name@ == name,
        idx_of_name(s, name) is Some ==> forall|k: int|
            0 <= k < idx_of_name(s, name)->0 ==> (#[trigger] s[k]).name@ != name,
        idx_of_name(s, name) is None ==> forall|k: int|
            0 <= k < s.len() ==> (#[trigger] s[k]).name@ != name,
    decreases s.len(),
{
    if s.len() == 0 {
    } else if s[0].name@ == name {
    } else {
        lemma_idx_of_name(s.drop_first(), name);
        assert(forall|k: int| 1 <= k < s.len() ==> #[trigger] s[k] == s.drop_first()[k - 1]);
    }
}

/// Records shown by default listings: everything not soft-deleted.
pub open spec fn live_tasks(s: Seq<Task>) -> Seq<Task> {
    s.filter(|t: Task| t.status != status_code(TaskStatus::Deleted))
}

/// The records carrying exactly the given status code.
pub open spec fn with_status(s: Seq<Task>, code: i32) -> Seq<Task> {
    s.filter(|t: Task| t.status == code)
}

/// The records carrying any of the given status codes.
pub open spec fn with_any_status(s: Seq<Task>, codes: Seq<i32>) -> Seq<Task> {
    s.filter(|t: Task| codes.contains(t.status))
}

/// The records whose name or description contains the needle,
/// case-insensitively.
pub open spec fn text_matches(s: Seq<Task>, needle: Seq<char>) -> Seq<Task> {
    s.filter(
        |t: Task|
            contains_seq(lower(t.name@), lower(needle)) || contains_seq(
                lower(t.description@),
                lower(needle),
            ),
    )
}

/// The table without the records of one id.
pub open spec fn without_id(s: Seq<Task>, id: Seq<char>) -> Seq<Task> {
    s.filter(|t: Task| t.id@ != id)
}

/// The status an update leaves behind, recomputed from the new deadline
/// alone: past means `Overdue`, future or absent means `Created`, whatever
/// status the caller supplied.
pub open spec fn recomputed_status(due: Option<i64>, now: i64) -> i32 {
    if due is Some && due->0 < now {
        status_code(TaskStatus::Overdue)
    } else {
        status_code(TaskStatus::Created)
    }
}

/// A record with its mutable fields replaced by an update's: name,
/// description and deadline are taken over, the status is recomputed from
/// the new deadline, and id and both timestamps stay.
pub open spec fn apply_update(orig: Task, u: TaskUpdate, now: i64) -> Task {
    Task {
        name: u.name,
        description: u.description,
        status: recomputed_status(u.due, now),
        due: u.due,
        ..orig
    }
}

/// A record with only its status replaced.
pub open spec fn with_status_set(t: Task, code: i32) -> Task {
    Task { status: code, ..t }
}

/// The status codes a value list of the filter language denotes, or
/// nothing as soon as one value is no status name.
pub open spec fn codes_of_values(vs: Seq<Seq<char>>) -> Option<Seq<i32>>
    decreases vs.len(),
{
    if vs.len() == 0 {
        Some(Seq::<i32>::empty())
    } else {
        match codes_of_values(vs.drop_last()) {
            None => None,
            Some(rest) => match status_of_name(vs.last()) {
                None => None,
                Some(st) => Some(rest.push(status_code(st))),
            },
        }
    }
}

/// One value outside the status names spoils the whole list.
proof fn lemma_codes_of_values_none(vs: Seq<Seq<char>>, i: int)
    requires
        0 <= i < vs.len(),
        status_of_name(vs[i]) is None,
    ensures
        codes_of_values(vs) is None,
    decreases vs.len(),
{
    if i == vs.len() - 1 {
    } else {
        lemma_codes_of_values_none(vs.drop_last(), i);
    }
}

/// After a hard delete nothing under the id is left to find, not even
/// through a later reconciling fetch: the sweep such a fetch runs first
/// rewrites no record of an id that is gone.
pub proof fn lemma_hard_delete_forgets(s: Seq<Task>, id: Seq<char>, now: i64)
    ensures
        find_by_id_spec(without_id(s, id), id) is None,
        sweep_matching(without_id(s, id), id, now) == without_id(s, id),
        find_by_id_spec(sweep_matching(without_id(s, id), id, now), id) is None,
{
    let kept = without_id(s, id);
    assert forall|k: int| 0 <= k < kept.len() implies (#[trigger] kept[k]).id@ != id by {
        broadcast use vstd::seq_lib::group_filter_ensures;

        reveal(Seq::filter);
    }
    lemma_idx_of_id_none(kept, id);
    assert(sweep_matching(kept, id, now) =~= kept);
}

/// The order listings come back in: soonest deadline first and no deadline
/// last, then status code ascending, then most recently touched first.
pub open spec fn listing_leq(a: Task, b: Task) -> bool {
    if a.due is Some && b.due is None {
        true
    } else if a.due is None && b.due is Some {
        false
    } else if a.due is Some && b.due is Some && a.due->0 != b.due->0 {
        a.due->0 < b.due->0
    } else if a.status != b.status {
        a.status < b.status
    } else {
        a.updated_at >= b.updated_at
    }
}

/// Where a record lands in an already-ordered listing: after everything
/// that does not come strictly later, so records the order cannot tell
/// apart keep the order they arrived in.
pub open spec fn listing_insert(s: Seq<Task>, x: Task) -> Seq<Task>
    decreases s.len(),
{
    if s.len() == 0 {
        seq![x]
    } else if listing_leq(s.last(), x) {
        s.push(x)
    } else {
        listing_insert(s.drop_last(), x).push(s.last())
    }
}

/// A task sequence brought into listing order, each record inserted in
/// turn.
pub open spec fn listing_order(s: Seq<Task>) -> Seq<Task>
    decreases s.len(),
{
    if s.len() == 0 {
        s
    } else {
        listing_insert(listing_order(s.drop_last()), s.last())
    }
}

/// Listing insertion, located: if everything from `pos` on comes strictly
/// later than `x` and the entry before `pos` does not, the insertion puts
/// `x` exactly at `pos`.
proof fn lemma_listing_insert_at(s: Seq<Task>, x: Task, pos: int)
    requires
        0 <= pos <= s.len(),
        forall|k: int| pos <= k < s.len() ==> !listing_leq(#[trigger] s[k], x),
        pos > 0 ==> listing_leq(s[pos - 1], x),
    ensures
        listing_insert(s, x) == s.insert(pos, x),
    decreases s.len(),
{
    if s.len() == 0 {
        assert(seq![x] =~= s.insert(0, x));
    } else if pos == s.len() {
        assert(s.push(x) =~= s.insert(pos, x));
    } else {
        assert(!listing_leq(s.last(), x));
        lemma_listing_insert_at(s.drop_last(), x, pos);
        assert(s.drop_last().insert(pos, x).push(s.last()) =~= s.insert(pos, x));
    }
}

/// Soft delete is no removal: setting any status on a record, `Deleted`
/// included, leaves it right where fetch-by-id finds it.
pub proof fn lemma_soft_delete_still_found(s: Seq<Task>, id: Seq<char>, code: i32)
    requires
        idx_of_id(s, id) is Some,
    ensures
        ({
            let i = idx_of_id(s, id)->0;
            find_by_id_spec(s.update(i, with_status_set(s[i], code)), id) == Some(
                with_status_set(s[i], code),
            )
        }),
{
    lemma_idx_of_id(s, id);
    let i = idx_of_id(s, id)->0;
    let s2 = s.update(i, with_status_set(s[i], code));
    assert(forall|k: int| 0 <= k < i ==> (#[trigger] s2[k]).id@ != id);
    lemma_idx_of_id_is(s2, id, i);
}

/// A soft-deleted record never shows up in a default listing, however it
/// got its status.
pub proof fn lemma_listings_hide_deleted(s: Seq<Task>)
    ensures
        forall|k: int|
            0 <= k < live_tasks(s).len() ==> (#[trigger] live_tasks(s)[k]).status != status_code(
                TaskStatus::Deleted,
            ),
{
    assert forall|k: int| 0 <= k < live_tasks(s).len() implies (#[trigger] live_tasks(s)[k]).status
        != status_code(TaskStatus::Deleted) by {
        broadcast use vstd::seq_lib::group_filter_ensures;

        reveal(Seq::filter);
    }
}

/// The listing order, decided in code.
fn listing_leq_exec(a: &Task, b: &Task) -> (r: bool)
    ensures
        r == listing_leq(*a, *b),
{
    match (a.due, b.due) {
        (Option::Some(da), Option::Some(db)) => {
            if da != db {
                da < db
            } else if a.status != b.status {
                a.status < b.status
            } else {
                a.updated_at >= b.updated_at
            }
        },
        (Option::Some(_), Option::None) => true,
        (Option::None, Option::Some(_)) => false,
        (Option::None, Option::None) => {
            if a.status != b.status {
                a.status < b.status
            } else {
                a.updated_at >= b.updated_at
            }
        },
    }
}

/// Puts one record where it belongs in an ordered listing.  Besides the
/// exact result, it also records that every entry afterwards is either the
/// new record or one that was already there.
fn insert_listing(out: &mut Vec<Task>, x: Task)
    ensures
        final(out)@ == listing_insert(old(out)@, x),
        forall|k: int|
            0 <= k < final(out)@.len() ==> (#[trigger] final(out)@[k] == x || old(
                out,
            )@.contains(final(out)@[k])),
{
    let ghost orig = out@;
    let mut pos: usize = out.len();
    while pos > 0 && !listing_leq_exec(&out[pos - 1], &x)
        invariant
            out@ == orig,
            pos <= out@.len(),
            forall|k: int| pos <= k < out@.len() ==> !listing_leq(#[trigger] out@[k], x),
        decreases pos,
    {
        pos = pos - 1;
    }
    proof {
        lemma_listing_insert_at(orig, x, pos as int);
    }
    out.insert(pos, x);
    proof {
        orig.insert_ensures(pos as int, x);
        assert forall|k: int| 0 <= k < out@.len() implies (#[trigger] out@[k] == x || orig.contains(
            out@[k],
        )) by {
            if k < pos {
                assert(out@[k] == orig[k]);
            } else if k > pos {
                assert(out@[k] == orig[k - 1]);
            }
        }
    }
}

/// Whether a deadline lies strictly in the past.
fn due_before(due: &Option<i64>, now: i64) -> (r: bool)
    ensures
        r == (due is Some && due->0 < now),
{
    match due {
        Option::Some(d) => *d < now,
        Option::None => false,
    }
}

/// The in-memory task table.
pub struct TaskStore {
    tasks: Vec<Task>,
}

impl View for TaskStore {
    type V = Seq<Task>;

    closed spec fn view(&self) -> Seq<Task> {
        self.tasks@
    }
}

impl TaskStore {
    /// An empty table.
    pub fn new() -> (r: Self)
        ensures
            r@ == Seq::<Task>::empty(),
    {
        let r = TaskStore { tasks: Vec::new() };
        proof {
            assert(r@ =~= Seq::<Task>::empty());
        }
        r
    }

    /// Reconciles the records with the given id, and reports how many it
    /// rewrote.  The in-memory table cannot fail, so the result is always
    /// `Ok`.
    pub fn check_overdue(&mut self, check_id: &str, now: i64) -> (r: Result<usize, StorageError>)
        ensures
            final(self)@ == sweep_matching(old(self)@, check_id@, now),
            r is Ok,
            r->Ok_0 as int == sweep_count(old(self)@, check_id@, now),
    {
        let ghost orig = self.tasks@;
        let len = self.tasks.len();
        let mut count: usize = 0;
        let mut i: usize = 0;
        proof {
            assert(orig.take(0) =~= Seq::<Task>::empty());
        }
        while i < len
            invariant
                len == self.tasks@.len(),
                orig.len() == len,
                i <= len,
                count <= i,
                count as int == sweep_count(orig.take(i as int), check_id@, now),
                forall|k: int|
                    0 <= k < i ==> #[trigger] self.tasks@[k] == sweep_match_task(
                        orig[k],
                        check_id@,
                        now,
                    ),
                forall|k: int| i <= k < len ==> #[trigger] self.tasks@[k] == orig[k],
            decreases len - i,
        {
            let id_matches = str_eq(self.tasks[i].id.as_str(), check_id);
            let live = !(self.tasks[i].status == 2 || self.tasks[i].status == 3);
            let past = due_before(&self.tasks[i].due, now);
            if id_matches && live && past {
                let mut t = self.tasks[i].clone();
                t.status = TaskStatus::Overdue.to_store();
                self.tasks[i] = t;
                count = count + 1;
            }
            i = i + 1;
            proof {
                assert(orig.take(i as int).drop_last() =~= orig.take(i - 1));
                assert(orig.take(i as int).last() == orig[i - 1]);
            }
        }
        proof {
            assert(orig.take(len as int) =~= orig);
            assert(self.tasks@ =~= sweep_matching(orig, check_id@, now));
        }
        Ok(count)
    }

    /// Reconciles every record of the table.
    fn set_overdues(&mut self, now: i64)
        ensures
            final(self)@ == sweep_all(old(self)@, now),
    {
        let ghost orig = self.tasks@;
        let len = self.tasks.len();
        let mut i: usize = 0;
        while i < len
            invariant
                len == self.tasks@.len(),
                orig.len() == len,
                i <= len,
                forall|k: int|
                    0 <= k < i ==> #[trigger] self.tasks@[k] == sweep_task(orig[k], now),
                forall|k: int| i <= k < len ==> #[trigger] self.tasks@[k] == orig[k],
            decreases len - i,
        {
            let live = !(self.tasks[i].status == 2 || self.tasks[i].status == 3);
            let past = due_before(&self.tasks[i].due, now);
            if live && past {
                let mut t = self.tasks[i].clone();
                t.status = TaskStatus::Overdue.to_store();
                self.tasks[i] = t;
            }
            i = i + 1;
        }
        proof {
            assert(self.tasks@ =~= sweep_all(orig, now));
        }
    }

    /// Reconciles the records with the given name, then returns the first
    /// of them.  Fetching by name is an observation like any other read,
    /// so the record handed back never shows a stale status.
    pub fn by_name(&mut self, name_query: &str, now: i64) -> (r: Option<Task>)
        ensures
            final(self)@ == sweep_matching_name(old(self)@, name_query@, now),
            r == find_by_name_spec(final(self)@, name_query@),
            r is Some ==> observed_consistent(r->0, now),
    {
        let ghost orig = self.tasks@;
        let len = self.tasks.len();
        let mut i: usize = 0;
        while i < len
            invariant
                orig == old(self)@,
                len == self.tasks@.len(),
                orig.len() == len,
                i <= len,
                forall|k: int|
                    0 <= k < i ==> #[trigger] self.tasks@[k] == sweep_name_task(
                        orig[k],
                        name_query@,
                        now,
                    ),
                forall|k: int| i <= k < len ==> #[trigger] self.tasks@[k] == orig[k],
            decreases len - i,
        {
            let name_matches = str_eq(self.tasks[i].name.as_str(), name_query);
            let live = !(self.tasks[i].status == 2 || self.tasks[i].status == 3);
            let past = due_before(&self.tasks[i].due, now);
            if name_matches && live && past {
                let mut t = self.tasks[i].clone();
                t.status = TaskStatus::Overdue.to_store();
                self.tasks[i] = t;
            }
            i = i + 1;
        }
        proof {
            assert(self.tasks@ =~= sweep_matching_name(orig, name_query@, now));
        }
        let ghost swept = self.tasks@;
        let mut j: usize = 0;
        while j < len
            invariant
                orig == old(self)@,
                len == self.tasks@.len(),
                self.tasks@ == swept,
                swept == sweep_matching_name(orig, name_query@, now),
                j <= len,
                forall|k: int| 0 <= k < j ==> (#[trigger] self.tasks@[k]).name@ != name_query@,
            decreases len - j,
        {
            if str_eq(self.tasks[j].name.as_str(), name_query) {
                proof {
                    lemma_idx_of_name_is(self.tasks@, name_query@, j as int);
                }
                let t = self.tasks[j].clone();
                proof {
                    assert(swept[j as int] == sweep_name_task(orig[j as int], name_query@, now));
                    assert(observed_consistent(t, now));
                }
                return Some(t);
            }
            j = j + 1;
        }
        proof {
            lemma_idx_of_name_none(self.tasks@, name_query@);
        }
        None
    }

    /// The pure observation: the first record with the given id exactly as
    /// stored, with no reconciling write.  Between observations a stale
    /// status may show; `by_id` is the reconciling counterpart.
    pub fn peek_by_id(&self, id: &str) -> (r: Option<Task>)
        ensures
            r == find_by_id_spec(self@, id@),
    {
        let len = self.tasks.len();
        let mut i: usize = 0;
        while i < len
            invariant
                len == self.tasks@.len(),
                i <= len,
                forall|k: int| 0 <= k < i ==> (#[trigger] self.tasks@[k]).id@ != id@,
            decreases len - i,
        {
            if str_eq(self.tasks[i].id.as_str(), id) {
                proof {
                    lemma_idx_of_id_is(self.tasks@, id@, i as int);
                }
                return Some(self.tasks[i].clone());
            }
            i = i + 1;
        }
        proof {
            lemma_idx_of_id_none(self.tasks@, id@);
        }
        None
    }

    /// Reconciles the records with the given id, then returns the first of
    /// them.  The record handed back never shows a stale status.
    pub fn by_id(&mut self, id: &str, now: i64) -> (r: Option<Task>)
        ensures
            final(self)@ == sweep_matching(old(self)@, id@, now),
            r == find_by_id_spec(final(self)@, id@),
            r is Some ==> observed_consistent(r->0, now),
    {
        self.check_overdue(id, now);
        let ghost swept = self.tasks@;
        let len = self.tasks.len();
        let mut i: usize = 0;
        while i < len
            invariant
                len == self.tasks@.len(),
                self.tasks@ == swept,
                swept == sweep_matching(old(self)@, id@, now),
                i <= len,
                forall|k: int| 0 <= k < i ==> (#[trigger] self.tasks@[k]).id@ != id@,
            decreases len - i,
        {
            if str_eq(self.tasks[i].id.as_str(), id) {
                proof {
                    lemma_idx_of_id_is(self.tasks@, id@, i as int);
                }
                let t = self.tasks[i].clone();
                proof {
                    assert(swept[i as int] == sweep_match_task(old(self)@[i as int], id@, now));
                    assert(observed_consistent(t, now));
                }
                return Some(t);
            }
            i = i + 1;
        }
        proof {
            lemma_idx_of_id_none(self.tasks@, id@);
        }
        None
    }

    /// Create-or-fetch.  A name already in the table is not an error: the
    /// record already there is reconciled and returned, and no duplicate
    /// is created.  Otherwise a fresh record is added, `Overdue` from the
    /// start when its deadline already lies in the past, `Created`
    /// otherwise.
    pub fn create(&mut self, name: &str, description: Option<&str>, due: Option<i64>, now: i64) -> (r:
        Option<Task>)
        ensures
            r is Some,
            find_by_name_spec(old(self)@, name@) is Some ==> final(self)@ == sweep_matching_name(
                old(self)@,
                name@,
                now,
            ),
            find_by_name_spec(old(self)@, name@) is Some ==> r->0 == sweep_task(
                find_by_name_spec(old(self)@, name@)->0,
                now,
            ),
            find_by_name_spec(old(self)@, name@) is None ==> final(self)@ == old(self)@.push(
                r->0,
            ),
            find_by_name_spec(old(self)@, name@) is None ==> r->0.name@ == name@,
            find_by_name_spec(old(self)@, name@) is None ==> r->0.description@ == (
            match description {
                Option::Some(d) => d@,
                Option::None => Seq::<char>::empty(),
            }),
            find_by_name_spec(old(self)@, name@) is None ==> r->0.due == due,
            find_by_name_spec(old(self)@, name@) is None ==> r->0.status == (
            if due is Some && due->0 < now {
                status_code(TaskStatus::Overdue)
            } else {
                status_code(TaskStatus::Created)
            }),
            find_by_name_spec(old(self)@, name@) is None ==> r->0.created_at == r->0.updated_at,
            find_by_name_spec(old(self)@, name@) is None ==> r->0.id@.len() == 36,
    {
        let ghost orig = self.tasks@;
        let existing = self.by_name(name, now);
        proof {
            lemma_sweep_name_find(orig, name@, now);
        }
        match existing {
            Option::Some(task) => Some(task),
            Option::None => {
                proof {
                    lemma_idx_of_name(orig, name@);
                    assert(self.tasks@ =~= orig);
                }
                let mut new_task = Task::new(name, description, due);
                if due_before(&new_task.due, now) {
                    new_task.status = TaskStatus::Overdue.to_store();
                }
                let stored = new_task.clone();
                self.tasks.push(stored);
                Some(new_task)
            },
        }
    }

    /// Reconciles the whole table, then returns every record that is not
    /// soft-deleted, in listing order.  No returned record shows a stale
    /// status.
    pub fn list(&mut self, now: i64) -> (r: Vec<Task>)
        ensures
            final(self)@ == sweep_all(old(self)@, now),
            r@ == listing_order(live_tasks(final(self)@)),
            forall|k: int| 0 <= k < r@.len() ==> observed_consistent(#[trigger] r@[k], now),
    {
        self.set_overdues(now);
        let ghost swept = self.tasks@;
        let len = self.tasks.len();
        let mut out: Vec<Task> = Vec::new();
        let mut i: usize = 0;
        proof {
            reveal(Seq::filter);
            assert(swept.take(0) =~= Seq::<Task>::empty());
        }
        while i < len
            invariant
                len == self.tasks@.len(),
                self.tasks@ == swept,
                swept == sweep_all(old(self)@, now),
                i <= len,
                out@ == listing_order(live_tasks(swept.take(i as int))),
                forall|k: int| 0 <= k < out@.len() ==> observed_consistent(#[trigger] out@[k], now),
            decreases len - i,
        {
            let ghost live_prev = live_tasks(swept.take(i as int));
            if self.tasks[i].status != 3 {
                let t = self.tasks[i].clone();
                proof {
                    assert(swept[i as int] == sweep_task(old(self)@[i as int], now));
                }
                let ghost prev_out = out@;
                insert_listing(&mut out, t);
                proof {
                    assert forall|k: int| 0 <= k < out@.len() implies observed_consistent(
                        #[trigger] out@[k],
                        now,
                    ) by {
                        if out@[k] != t {
                            assert(prev_out.contains(out@[k]));
                            let j = choose|j: int|
                                0 <= j < prev_out.len() && prev_out[j] == out@[k];
                            assert(observed_consistent(prev_out[j], now));
                        }
                    }
                }
            }
            i = i + 1;
            proof {
                reveal(Seq::filter);
                assert(swept.take(i as int).drop_last() =~= swept.take(i - 1));
                assert(swept.take(i as int).last() == swept[i - 1]);
                let live_next = live_tasks(swept.take(i as int));
                if swept[i - 1].status != status_code(TaskStatus::Deleted) {
                    assert(live_next == live_prev.push(swept[i - 1]));
                    assert(live_next.drop_last() =~= live_prev);
                    assert(live_next.last() == swept[i - 1]);
                } else {
                    assert(live_next == live_prev);
                }
            }
        }
        proof {
            assert(swept.take(len as int) =~= swept);
        }
        out
    }

    /// Replaces a record's mutable fields with the update's and recomputes
    /// its status from the new deadline; id and timestamps stay as they
    /// were.  An id that matches nothing leaves the table alone.
    pub fn update(&mut self, tsk: TaskUpdate, now: i64) -> (r: Option<Task>)
        ensures
            idx_of_id(old(self)@, tsk.id@) is None ==> final(self)@ == old(self)@ && r is None,
            idx_of_id(old(self)@, tsk.id@) is Some ==> final(self)@ == old(self)@.update(
                idx_of_id(old(self)@, tsk.id@)->0,
                apply_update(old(self)@[idx_of_id(old(self)@, tsk.id@)->0], tsk, now),
            ),
            idx_of_id(old(self)@, tsk.id@) is Some ==> r == Some(
                apply_update(old(self)@[idx_of_id(old(self)@, tsk.id@)->0], tsk, now),
            ),
            r is Some ==> observed_consistent(r->0, now),
    {
        let len = self.tasks.len();
        let mut i: usize = 0;
        while i < len
            invariant
                len == self.tasks@.len(),
                self.tasks@ == old(self)@,
                i <= len,
                forall|k: int| 0 <= k < i ==> (#[trigger] self.tasks@[k]).id@ != tsk.id@,
            decreases len - i,
        {
            if str_eq(self.tasks[i].id.as_str(), tsk.id.as_str()) {
                proof {
                    lemma_idx_of_id_is(self.tasks@, tsk.id@, i as int);
                }
                let new_status = if due_before(&tsk.due, now) {
                    TaskStatus::Overdue.to_store()
                } else {
                    TaskStatus::Created.to_store()
                };
                let orig_t = self.tasks[i].clone();
                let updated = Task {
                    id: orig_t.id,
                    name: tsk.name,
                    description: tsk.description,
                    status: new_status,
                    due: tsk.due,
                    created_at: orig_t.created_at,
                    updated_at: orig_t.updated_at,
                };
                let ret = updated.clone();
                self.tasks[i] = updated;
                return Some(ret);
            }
            i = i + 1;
        }
        proof {
            lemma_idx_of_id_none(self.tasks@, tsk.id@);
        }
        None
    }

    /// Sets a record's status outright, `Done` and `Deleted` included.
    /// This explicit transition is exempt from overdue recomputation: what
    /// the caller sets is what the table keeps and what is returned.
    pub fn set_status(&mut self, task_id: &str, new_status: i32) -> (r: Option<Task>)
        requires
            valid_status_code(new_status),
        ensures
            idx_of_id(old(self)@, task_id@) is None ==> final(self)@ == old(self)@ && r is None,
            idx_of_id(old(self)@, task_id@) is Some ==> final(self)@ == old(self)@.update(
                idx_of_id(old(self)@, task_id@)->0,
                with_status_set(old(self)@[idx_of_id(old(self)@, task_id@)->0], new_status),
            ),
            idx_of_id(old(self)@, task_id@) is Some ==> r == Some(
                with_status_set(old(self)@[idx_of_id(old(self)@, task_id@)->0], new_status),
            ),
    {
        let len = self.tasks.len();
        let mut i: usize = 0;
        while i < len
            invariant
                len == self.tasks@.len(),
                self.tasks@ == old(self)@,
                i <= len,
                forall|k: int| 0 <= k < i ==> (#[trigger] self.tasks@[k]).id@ != task_id@,
            decreases len - i,
        {
            if str_eq(self.tasks[i].id.as_str(), task_id) {
                proof {
                    lemma_idx_of_id_is(self.tasks@, task_id@, i as int);
                }
                let mut t = self.tasks[i].clone();
                t.status = new_status;
                let ret = t.clone();
                self.tasks[i] = t;
                return Some(ret);
            }
            i = i + 1;
        }
        proof {
            lemma_idx_of_id_none(self.tasks@, task_id@);
        }
        None
    }

    /// Reconciles the whole table, then returns the records carrying
    /// exactly the given status code, in listing order.
    pub fn filter_by_status(&mut self, filter_status: i32, now: i64) -> (r: Vec<Task>)
        requires
            valid_status_code(filter_status),
        ensures
            final(self)@ == sweep_all(old(self)@, now),
            r@ == listing_order(with_status(final(self)@, filter_status)),
            forall|k: int| 0 <= k < r@.len() ==> observed_consistent(#[trigger] r@[k], now),
    {
        self.set_overdues(now);
        let ghost swept = self.tasks@;
        let len = self.tasks.len();
        let mut out: Vec<Task> = Vec::new();
        let mut i: usize = 0;
        proof {
            reveal(Seq::filter);
            assert(swept.take(0) =~= Seq::<Task>::empty());
        }
        while i < len
            invariant
                len == self.tasks@.len(),
                self.tasks@ == swept,
                swept == sweep_all(old(self)@, now),
                i <= len,
                out@ == listing_order(with_status(swept.take(i as int), filter_status)),
                forall|k: int| 0 <= k < out@.len() ==> observed_consistent(#[trigger] out@[k], now),
            decreases len - i,
        {
            let ghost sel_prev = with_status(swept.take(i as int), filter_status);
            if self.tasks[i].status == filter_status {
                let t = self.tasks[i].clone();
                proof {
                    assert(swept[i as int] == sweep_task(old(self)@[i as int], now));
                }
                let ghost prev_out = out@;
                insert_listing(&mut out, t);
                proof {
                    assert forall|k: int| 0 <= k < out@.len() implies observed_consistent(
                        #[trigger] out@[k],
                        now,
                    ) by {
                        if out@[k] != t {
                            assert(prev_out.contains(out@[k]));
                            let j = choose|j: int|
                                0 <= j < prev_out.len() && prev_out[j] == out@[k];
                            assert(observed_consistent(prev_out[j], now));
                        }
                    }
                }
            }
            i = i + 1;
            proof {
                reveal(Seq::filter);
                assert(swept.take(i as int).drop_last() =~= swept.take(i - 1));
                assert(swept.take(i as int).last() == swept[i - 1]);
                let sel_next = with_status(swept.take(i as int), filter_status);
                if swept[i - 1].status == filter_status {
                    assert(sel_next == sel_prev.push(swept[i - 1]));
                    assert(sel_next.drop_last() =~= sel_prev);
                    assert(sel_next.last() == swept[i - 1]);
                } else {
                    assert(sel_next == sel_prev);
                }
            }
        }
        proof {
            assert(swept.take(len as int) =~= swept);
        }
        out
    }

    /// Runs a filter expression of the mini-language against the table: the
    /// field must be `status`, and every value must name a status.  A good
    /// expression reconciles the table and selects the records carrying any
    /// of the named statuses; a bad one is rejected before anything is
    /// observed or written.
    #[verifier::loop_isolation(false)]
    pub fn filter(&mut self, query: &str, now: i64) -> (r: Result<Vec<Task>, ValidationError>)
        ensures
            r is Err ==> final(self)@ == old(self)@,
            parse_spec(query@) is None ==> r is Err && r->Err_0 == ValidationError::MalformedFilter,
            parse_spec(query@) is Some && parse_spec(query@)->Some_0.0 != "status"@ ==> r is Err
                && r->Err_0 == ValidationError::MalformedFilter,
            parse_spec(query@) is Some && parse_spec(query@)->Some_0.0 == "status"@
                && codes_of_values(parse_spec(query@)->Some_0.1) is None ==> r is Err && r->Err_0
                == ValidationError::UnknownStatus,
            parse_spec(query@) is Some && parse_spec(query@)->Some_0.0 == "status"@
                && codes_of_values(parse_spec(query@)->Some_0.1) is Some ==> final(self)@
                == sweep_all(old(self)@, now) && r is Ok && r->Ok_0@ == listing_order(
                with_any_status(final(self)@, codes_of_values(parse_spec(query@)->Some_0.1)->0),
            ),
            r is Ok ==> forall|k: int|
                0 <= k < r->Ok_0@.len() ==> observed_consistent(#[trigger] r->Ok_0@[k], now),
    {
        let parsed = match parse_search_value(query) {
            Ok(kv) => kv,
            Err(_) => {
                return Err(ValidationError::MalformedFilter);
            },
        };
        let (key, values) = parsed;
        if !str_eq(key.as_str(), "status") {
            return Err(ValidationError::MalformedFilter);
        }
        let ghost vals = parse_spec(query@)->Some_0.1;
        let n_values = values.len();
        let mut codes: Vec<i32> = Vec::new();
        let mut i: usize = 0;
        proof {
            assert(vals.take(0) =~= Seq::<Seq<char>>::empty());
            assert(codes@ =~= Seq::<i32>::empty());
        }
        while i < n_values
            invariant
                n_values == values@.len(),
                values.deep_view() == vals,
                i <= n_values,
                codes_of_values(vals.take(i as int)) == Some(codes@),
            decreases n_values - i,
        {
            let ghost old_codes = codes@;
            let st = match status_from_name(values[i].as_str()) {
                Some(st) => st,
                None => {
                    proof {
                        assert(vals[i as int] == values@[i as int]@);
                        lemma_codes_of_values_none(vals, i as int);
                    }
                    return Err(ValidationError::UnknownStatus);
                },
            };
            codes.push(st.to_store());
            i = i + 1;
            proof {
                assert(vals[i - 1] == values@[i - 1]@);
                assert(vals.take(i as int).drop_last() =~= vals.take(i - 1));
                assert(vals.take(i as int).last() == vals[i - 1]);
                assert(codes@ =~= old_codes.push(status_code(status_of_name(vals[i - 1])->0)));
            }
        }
        proof {
            assert(vals.take(n_values as int) =~= vals);
        }

        self.set_overdues(now);
        let ghost swept = self.tasks@;
        let len = self.tasks.len();
        let mut out: Vec<Task> = Vec::new();
        let mut j: usize = 0;
        proof {
            reveal(Seq::filter);
            assert(swept.take(0) =~= Seq::<Task>::empty());
        }
        while j < len
            invariant
                len == self.tasks@.len(),
                self.tasks@ == swept,
                swept == sweep_all(old(self)@, now),
                j <= len,
                out@ == listing_order(with_any_status(swept.take(j as int), codes@)),
                forall|k: int| 0 <= k < out@.len() ==> observed_consistent(#[trigger] out@[k], now),
            decreases len - j,
        {
            let ghost sel_prev = with_any_status(swept.take(j as int), codes@);
            if contains_code(&codes, self.tasks[j].status) {
                let t = self.tasks[j].clone();
                proof {
                    assert(swept[j as int] == sweep_task(old(self)@[j as int], now));
                }
                let ghost prev_out = out@;
                insert_listing(&mut out, t);
                proof {
                    assert forall|k: int| 0 <= k < out@.len() implies observed_consistent(
                        #[trigger] out@[k],
                        now,
                    ) by {
                        if out@[k] != t {
                            assert(prev_out.contains(out@[k]));
                            let jj = choose|jj: int|
                                0 <= jj < prev_out.len() && prev_out[jj] == out@[k];
                            assert(observed_consistent(prev_out[jj], now));
                        }
                    }
                }
            }
            j = j + 1;
            proof {
                reveal(Seq::filter);
                assert(swept.take(j as int).drop_last() =~= swept.take(j - 1));
                assert(swept.take(j as int).last() == swept[j - 1]);
                let sel_next = with_any_status(swept.take(j as int), codes@);
                if codes@.contains(swept[j - 1].status) {
                    assert(sel_next == sel_prev.push(swept[j - 1]));
                    assert(sel_next.drop_last() =~= sel_prev);
                    assert(sel_next.last() == swept[j - 1]);
                } else {
                    assert(sel_next == sel_prev);
                }
            }
        }
        proof {
            assert(swept.take(len as int) =~= swept);
        }
        Ok(out)
    }

    /// Free-text relevance search: the records whose name or description
    /// contains the term, case-insensitively, ranked by ascending edit
    /// distance of their nearest token.  Searching observes nothing: the
    /// table is not reconciled and not written.
    pub fn text_filter(&self, text: &str) -> (r: Vec<Task>)
        ensures
            r@ == sorted_by_score(text_matches(self@, text@), text@),
    {
        let len = self.tasks.len();
        let mut candidates: Vec<Task> = Vec::new();
        let mut i: usize = 0;
        proof {
            reveal(Seq::filter);
            assert(self.tasks@.take(0) =~= Seq::<Task>::empty());
        }
        while i < len
            invariant
                len == self.tasks@.len(),
                i <= len,
                candidates@ == text_matches(self.tasks@.take(i as int), text@),
            decreases len - i,
        {
            let in_name = contains_ci(self.tasks[i].name.as_str(), text);
            let in_desc = contains_ci(self.tasks[i].description.as_str(), text);
            if in_name || in_desc {
                candidates.push(self.tasks[i].clone());
            }
            i = i + 1;
            proof {
                reveal(Seq::filter);
                assert(self.tasks@.take(i as int).drop_last() =~= self.tasks@.take(i - 1));
                assert(self.tasks@.take(i as int).last() == self.tasks@[i - 1]);
            }
        }
        proof {
            assert(self.tasks@.take(len as int) =~= self.tasks@);
        }
        sort_by_score(candidates, text)
    }

    /// Hard delete: removes the records with the given id from the table
    /// outright, and reports how many rows went.  This is the other removal
    /// path, independent of the soft `Deleted` status.
    pub fn delete_task(&mut self, trg_id: &str) -> (r: Result<usize, StorageError>)
        ensures
            final(self)@ == without_id(old(self)@, trg_id@),
            r is Ok,
            r->Ok_0 as int == old(self)@.len() - without_id(old(self)@, trg_id@).len(),
    {
        let ghost orig = self.tasks@;
        let len = self.tasks.len();
        let mut kept: Vec<Task> = Vec::new();
        let mut removed: usize = 0;
        let mut i: usize = 0;
        proof {
            reveal(Seq::filter);
            assert(orig.take(0) =~= Seq::<Task>::empty());
        }
        while i < len
            invariant
                len == self.tasks@.len(),
                self.tasks@ == orig,
                i <= len,
                kept@ == without_id(orig.take(i as int), trg_id@),
                removed + kept@.len() == i,
            decreases len - i,
        {
            if str_eq(self.tasks[i].id.as_str(), trg_id) {
                removed = removed + 1;
            } else {
                kept.push(self.tasks[i].clone());
            }
            i = i + 1;
            proof {
                reveal(Seq::filter);
                assert(orig.take(i as int).drop_last() =~= orig.take(i - 1));
                assert(orig.take(i as int).last() == orig[i - 1]);
            }
        }
        proof {
            assert(orig.take(len as int) =~= orig);
        }
        self.tasks = kept;
        Ok(removed)
    }
}

/// Whether a code occurs in a code list.
fn contains_code(codes: &Vec<i32>, c: i32) -> (r: bool)
    ensures
        r == codes@.contains(c),
{
    let len = codes.len();
    let mut i: usize = 0;
    while i < len
        invariant
            len == codes@.len(),
            i <= len,
            forall|k: int| 0 <= k < i ==> codes@[k] != c,
        decreases len - i,
    {
        if codes[i] == c {
            return true;
        }
        i = i + 1;
    }
    false
}

} // verus!
