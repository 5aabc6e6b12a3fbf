//! Edit-distance primitive and the relevance scorer built on it.

use vstd::prelude::*;

use crate::model::Task;
use crate::text::lower;
use crate::text::lower_chars;
use crate::text::str_chars;
use crate::text::tokenize;
use crate::text::tokens;

verus! {

/// The smaller of two values.
pub open spec fn min2(a: int, b: int) -> int {
    if a <= b {
        a
    } else {
        b
    }
}

/// The least of three values.
pub open spec fn min3(a: int, b: int, c: int) -> int {
    if a <= b && a <= c {
        a
    } else if b <= c {
        b
    } else {
        c
    }
}

/// Levenshtein distance: the least number of single-character insertions,
/// deletions and substitutions that turn `s` into `t`, by the classic
/// recurrence on the last characters.
pub open spec fn edit_distance(s: Seq<char>, t: Seq<char>) -> int
    decreases s.len() + t.len(),
{
    if s.len() == 0 {
        t.len() as int
    } else if t.len() == 0 {
        s.len() as int
    } else {
        let cost: int = if s.last() == t.last() {
            0
        } else {
            1
        };
        min3(
            edit_distance(s.drop_last(), t) + 1,
            edit_distance(s, t.drop_last()) + 1,
            edit_distance(s.drop_last(), t.drop_last()) + cost,
        )
    }
}

/// The distance is never negative and never more than the longer length.
pub proof fn lemma_edit_distance_bounds(s: Seq<char>, t: Seq<char>)
    ensures
        0 <= edit_distance(s, t),
        edit_distance(s, t) <= vstd::math::max(s.len() as int, t.len() as int),
    decreases s.len() + t.len(),
{
    if s.len() == 0 || t.len() == 0 {
    } else {
        lemma_edit_distance_bounds(s.drop_last(), t);
        lemma_edit_distance_bounds(s, t.drop_last());
        lemma_edit_distance_bounds(s.drop_last(), t.drop_last());
    }
}

/// Turning a string into itself needs no edits.
pub proof fn lemma_edit_distance_self(s: Seq<char>)
    ensures
        edit_distance(s, s) == 0,
    decreases s.len(),
{
    if s.len() == 0 {
    } else {
        lemma_edit_distance_self(s.drop_last());
        lemma_edit_distance_bounds(s.drop_last(), s);
        lemma_edit_distance_bounds(s, s.drop_last());
    }
}

/// Turning a string into the empty string deletes every character, and the
/// other way round inserts every character.
pub proof fn lemma_edit_distance_empty(s: Seq<char>)
    ensures
        edit_distance(s, Seq::<char>::empty()) == s.len(),
        edit_distance(Seq::<char>::empty(), s) == s.len(),
{
}

/// The distance does not depend on the order of its two arguments.
pub proof fn lemma_edit_distance_symmetric(s: Seq<char>, t: Seq<char>)
    ensures
        edit_distance(s, t) == edit_distance(t, s),
    decreases s.len() + t.len(),
{
    if s.len() == 0 || t.len() == 0 {
    } else {
        lemma_edit_distance_symmetric(s.drop_last(), t);
        lemma_edit_distance_symmetric(s, t.drop_last());
        lemma_edit_distance_symmetric(s.drop_last(), t.drop_last());
    }
}

/// The recurrence restated over prefix lengths, the shape the dynamic
/// program fills its table in.
proof fn lemma_edit_distance_step(s: Seq<char>, t: Seq<char>, i: int, j: int)
    requires
        1 <= i <= s.len(),
        1 <= j <= t.len(),
    ensures
        edit_distance(s.take(i), t.take(j)) == min3(
            edit_distance(s.take(i - 1), t.take(j)) + 1,
            edit_distance(s.take(i), t.take(j - 1)) + 1,
            edit_distance(s.take(i - 1), t.take(j - 1)) + if s[i - 1] == t[j - 1] {
                0int
            } else {
                1int
            },
        ),
{
    let a = s.take(i);
    let b = t.take(j);
    assert(a.len() == i && b.len() == j);
    assert(a.drop_last() =~= s.take(i - 1));
    assert(b.drop_last() =~= t.take(j - 1));
    assert(a.last() == s[i - 1]);
    assert(b.last() == t[j - 1]);
}

/// An empty prefix is turned into a prefix of length `j` by `j` insertions.
proof fn lemma_edit_distance_base(s: Seq<char>, t: Seq<char>, j: int)
    requires
        0 <= j <= t.len(),
    ensures
        edit_distance(s.take(0), t.take(j)) == j,
        edit_distance(t.take(j), s.take(0)) == j,
{
    assert(s.take(0) =~= Seq::<char>::empty());
    assert(t.take(j).len() == j);
}

/// The least of three values, as executable code.
pub fn min_of_three(a: usize, b: usize, c: usize) -> (r: usize)
    ensures
        r as int == min3(a as int, b as int, c as int),
{
    if a <= b && a <= c {
        a
    } else if b <= c {
        b
    } else {
        c
    }
}

/// Levenshtein distance over character vectors, by the Wagner–Fischer
/// dynamic program, one table row at a time.
pub fn edit_distance_chars(s: &Vec<char>, t: &Vec<char>) -> (r: usize)
    ensures
        r as int == edit_distance(s@, t@),
{
    let m = s.len();
    let n = t.len();

    // Row 0: the distance from the empty prefix of `s` is the prefix length.
    let mut prev: Vec<usize> = Vec::new();
    prev.push(0);
    let mut j: usize = 0;
    while j < n
        invariant
            j <= n,
            prev@.len() == j + 1,
            forall|k: int| 0 <= k <= j ==> prev@[k] == k,
        decreases n - j,
    {
        prev.push(j + 1);
        j = j + 1;
    }
    proof {
        assert forall|jj: int| 0 <= jj <= n implies prev@[jj] as int == edit_distance(
            s@.take(0),
            t@.take(jj),
        ) by {
            lemma_edit_distance_base(s@, t@, jj);
        }
    }

    let mut i: usize = 0;
    while i < m
        invariant
            m == s@.len(),
            n == t@.len(),
            i <= m,
            prev@.len() == n + 1,
            forall|jj: int|
                0 <= jj <= n ==> prev@[jj] as int == edit_distance(s@.take(i as int), t@.take(jj)),
        decreases m - i,
    {
        let row_len = prev.len();
        let mut curr: Vec<usize> = Vec::new();
        curr.push(i + 1);
        proof {
            lemma_edit_distance_base(t@, s@, i + 1);
            assert(s@.take(i + 1).take(0) =~= s@.take(0));
            assert(edit_distance(s@.take(i + 1), t@.take(0)) == i + 1) by {
                assert(t@.take(0) =~= Seq::<char>::empty());
                assert(s@.take(i + 1).len() == i + 1);
            }
        }
        let mut j: usize = 0;
        while j < n
            invariant
                m == s@.len(),
                n == t@.len(),
                i < m,
                j <= n,
                row_len == n + 1,
                prev@.len() == n + 1,
                forall|jj: int|
                    0 <= jj <= n ==> prev@[jj] as int == edit_distance(
                        s@.take(i as int),
                        t@.take(jj),
                    ),
                curr@.len() == j + 1,
                forall|jj: int|
                    0 <= jj <= j ==> curr@[jj] as int == edit_distance(
                        s@.take(i as int + 1),
                        t@.take(jj),
                    ),
            decreases n - j,
        {
            let cost: usize = if s[i] == t[j] {
                0
            } else {
                1
            };
            let del_from = prev[j + 1];
            let ins_from = curr[j];
            let sub_from = prev[j];
            proof {
                lemma_edit_distance_bounds(s@.take(i as int), t@.take(j + 1));
                lemma_edit_distance_bounds(s@.take(i as int + 1), t@.take(j as int));
                lemma_edit_distance_bounds(s@.take(i as int), t@.take(j as int));
                lemma_edit_distance_step(s@, t@, i + 1, j + 1);
            }
            let del = if del_from < usize::MAX {
                del_from + 1
            } else {
                usize::MAX
            };
            let ins = if ins_from < usize::MAX {
                ins_from + 1
            } else {
                usize::MAX
            };
            let cell = min_of_three(del, ins, sub_from + cost);
            proof {
                lemma_edit_distance_bounds(s@.take(i as int + 1), t@.take(j + 1));
                assert(cell as int == edit_distance(s@.take(i as int + 1), t@.take(j + 1)));
            }
            curr.push(cell);
            j = j + 1;
        }
        prev = curr;
        i = i + 1;
    }
    proof {
        assert(s@.take(m as int) =~= s@);
        assert(t@.take(n as int) =~= t@);
    }
    prev[n]
}

/// Levenshtein distance between two strings.
pub fn wagner_fisher(source: &str, target: &str) -> (r: usize)
    ensures
        r as int == edit_distance(source@, target@),
{
    let s = str_chars(source);
    let t = str_chars(target);
    edit_distance_chars(&s, &t)
}

/// How far a token is from the query term, compared case-insensitively.
pub open spec fn token_distance(tok: Seq<char>, term: Seq<char>) -> int {
    edit_distance(lower(tok), lower(term))
}

/// The least token distance over a token list.  A field with no tokens has
/// nothing to compare, so it scores the sentinel `usize::MAX` and sorts
/// last.
pub open spec fn min_token_distance(toks: Seq<Seq<char>>, term: Seq<char>) -> int
    decreases toks.len(),
{
    if toks.len() == 0 {
        usize::MAX as int
    } else {
        min2(token_distance(toks[0], term), min_token_distance(toks.drop_first(), term))
    }
}

/// The least token distance always lies between zero and the sentinel.
pub proof fn lemma_min_token_distance_range(toks: Seq<Seq<char>>, term: Seq<char>)
    ensures
        0 <= min_token_distance(toks, term) <= usize::MAX as int,
    decreases toks.len(),
{
    if toks.len() == 0 {
    } else {
        lemma_min_token_distance_range(toks.drop_first(), term);
        lemma_edit_distance_bounds(lower(toks[0]), lower(term));
    }
}

/// The least token distance is no more than the distance of any one token.
proof fn lemma_min_token_distance_le(toks: Seq<Seq<char>>, term: Seq<char>, k: int)
    requires
        0 <= k < toks.len(),
    ensures
        min_token_distance(toks, term) <= token_distance(toks[k], term),
    decreases k,
{
    if k == 0 {
    } else {
        lemma_min_token_distance_le(toks.drop_first(), term, k - 1);
    }
}

/// The least case-insensitive edit distance from the query term to any
/// whitespace token of `words`, or the sentinel if there is none.
pub fn get_min_distance_from_words(words: &str, term: &str) -> (r: usize)
    ensures
        r as int == min_token_distance(tokens(words@), term@),
{
    let toks = tokenize(words);
    let term_low = lower_chars(&str_chars(term));
    let n = toks.len();
    let mut best: usize = usize::MAX;
    let mut i: usize = 0;
    proof {
        lemma_min_token_distance_range(tokens(words@), term@);
        assert(toks.deep_view().skip(0) =~~= toks.deep_view());
    }
    while i < n
        invariant
            n == toks@.len(),
            toks.deep_view() == tokens(words@),
            term_low@ == lower(term@),
            i <= n,
            min_token_distance(tokens(words@), term@) == min2(
                best as int,
                min_token_distance(toks.deep_view().skip(i as int), term@),
            ),
        decreases n - i,
    {
        let ghost rem = toks.deep_view().skip(i as int);
        let tok_low = lower_chars(&toks[i]);
        proof {
            assert(toks@[i as int].deep_view() =~= toks@[i as int]@);
            assert(rem[0] == toks.deep_view()[i as int]);
            assert(rem.drop_first() =~~= toks.deep_view().skip(i as int + 1));
        }
        let d = edit_distance_chars(&tok_low, &term_low);
        proof {
            assert(d as int == token_distance(rem[0], term@));
        }
        if d < best {
            best = d;
        }
        i = i + 1;
    }
    proof {
        assert(toks.deep_view().skip(n as int) =~~= Seq::<Seq<char>>::empty());
    }
    best
}

/// A task's relevance to the term: the least token distance over the tokens
/// of its name and of its description, taken together.
pub open spec fn task_score(t: Task, term: Seq<char>) -> int {
    min2(
        min_token_distance(tokens(t.name@), term),
        min_token_distance(tokens(t.description@), term),
    )
}

/// A task's score is never negative.
pub proof fn lemma_task_score_range(t: Task, term: Seq<char>)
    ensures
        0 <= task_score(t, term) <= usize::MAX as int,
{
    lemma_min_token_distance_range(tokens(t.name@), term);
    lemma_min_token_distance_range(tokens(t.description@), term);
}

/// Computes a task's relevance score.
pub fn score_task(t: &Task, term: &str) -> (r: usize)
    ensures
        r as int == task_score(*t, term@),
{
    let dist_name = get_min_distance_from_words(self_name(t), term);
    let dist_desc = get_min_distance_from_words(self_desc(t), term);
    if dist_name <= dist_desc {
        dist_name
    } else {
        dist_desc
    }
}

fn self_name(t: &Task) -> (r: &str)
    ensures
        r@ == t.name@,
{
    t.name.as_str()
}

fn self_desc(t: &Task) -> (r: &str)
    ensures
        r@ == t.description@,
{
    t.description.as_str()
}

/// If the term equals some whole token of the task's name or description,
/// compared case-insensitively, the task scores zero: an exact match
/// anywhere wins.
pub proof fn lemma_exact_token_scores_zero(t: Task, term: Seq<char>, k: int)
    requires
        (0 <= k < tokens(t.name@).len() && lower(tokens(t.name@)[k]) == lower(term)) || (0 <= k
            < tokens(t.description@).len() && lower(tokens(t.description@)[k]) == lower(term)),
    ensures
        task_score(t, term) == 0,
{
    lemma_task_score_range(t, term);
    if 0 <= k < tokens(t.name@).len() && lower(tokens(t.name@)[k]) == lower(term) {
        lemma_min_token_distance_le(tokens(t.name@), term, k);
        lemma_edit_distance_self(lower(term));
    } else {
        lemma_min_token_distance_le(tokens(t.description@), term, k);
        lemma_edit_distance_self(lower(term));
    }
}

/// Where a task lands in an already-ranked list: after every task that
/// scores no worse, before every task that scores strictly worse, so ties
/// keep their earlier order.
pub open spec fn stable_insert(s: Seq<Task>, x: Task, term: Seq<char>) -> Seq<Task>
    decreases s.len(),
{
    if s.len() == 0 {
        seq![x]
    } else if task_score(s.last(), term) <= task_score(x, term) {
        s.push(x)
    } else {
        stable_insert(s.drop_last(), x, term).push(s.last())
    }
}

/// The ranking of a task list: each task stably inserted in turn.
pub open spec fn sorted_by_score(s: Seq<Task>, term: Seq<char>) -> Seq<Task>
    decreases s.len(),
{
    if s.len() == 0 {
        s
    } else {
        stable_insert(sorted_by_score(s.drop_last(), term), s.last(), term)
    }
}

/// Scores never decrease along the list.
pub open spec fn scores_non_decreasing(s: Seq<Task>, term: Seq<char>) -> bool {
    forall|i: int, j: int|
        0 <= i <= j < s.len() ==> task_score(#[trigger] s[i], term) <= task_score(
            #[trigger] s[j],
            term,
        )
}

/// Stable insertion, located: if everything from `pos` on scores strictly
/// worse than `x` and the entry before `pos` does not, the insertion puts
/// `x` exactly at `pos`.
proof fn lemma_stable_insert_at(s: Seq<Task>, x: Task, term: Seq<char>, pos: int)
    requires
        0 <= pos <= s.len(),
        forall|k: int| pos <= k < s.len() ==> task_score(#[trigger] s[k], term) > task_score(x, term),
        pos > 0 ==> task_score(s[pos - 1], term) <= task_score(x, term),
    ensures
        stable_insert(s, x, term) == s.insert(pos, x),
    decreases s.len(),
{
    if s.len() == 0 {
        assert(seq![x] =~= s.insert(0, x));
    } else if pos == s.len() {
        assert(s.push(x) =~= s.insert(pos, x));
    } else {
        assert(task_score(s.last(), term) > task_score(x, term));
        lemma_stable_insert_at(s.drop_last(), x, term, pos);
        assert(s.drop_last().insert(pos, x).push(s.last()) =~= s.insert(pos, x));
    }
}

/// Every score in a stable insertion is bounded by any bound on the scores
/// of the list and of the inserted task.
proof fn lemma_stable_insert_scores(s: Seq<Task>, x: Task, term: Seq<char>, b: int)
    requires
        task_score(x, term) <= b,
        forall|k: int| 0 <= k < s.len() ==> task_score(#[trigger] s[k], term) <= b,
    ensures
        forall|k: int|
            0 <= k < stable_insert(s, x, term).len() ==> task_score(
                #[trigger] stable_insert(s, x, term)[k],
                term,
            ) <= b,
    decreases s.len(),
{
    let r = stable_insert(s, x, term);
    if s.len() == 0 {
        assert forall|k: int| 0 <= k < r.len() implies task_score(#[trigger] r[k], term) <= b by {
            assert(r[k] == x);
        }
    } else if task_score(s.last(), term) <= task_score(x, term) {
        assert forall|k: int| 0 <= k < r.len() implies task_score(#[trigger] r[k], term) <= b by {
            if k < s.len() {
                assert(r[k] == s[k]);
            } else {
                assert(r[k] == x);
            }
        }
    } else {
        lemma_stable_insert_scores(s.drop_last(), x, term, b);
        let inner = stable_insert(s.drop_last(), x, term);
        assert forall|k: int| 0 <= k < r.len() implies task_score(#[trigger] r[k], term) <= b by {
            if k < inner.len() {
                assert(r[k] == inner[k]);
            } else {
                assert(r[k] == s.last());
            }
        }
    }
}

/// Stable insertion into a ranked list keeps it ranked.
proof fn lemma_stable_insert_sorted(s: Seq<Task>, x: Task, term: Seq<char>)
    requires
        scores_non_decreasing(s, term),
    ensures
        scores_non_decreasing(stable_insert(s, x, term), term),
        stable_insert(s, x, term).len() == s.len() + 1,
    decreases s.len(),
{
    if s.len() == 0 {
    } else if task_score(s.last(), term) <= task_score(x, term) {
        let r = s.push(x);
        assert forall|i: int, j: int| 0 <= i <= j < r.len() implies task_score(#[trigger] r[i], term)
            <= task_score(#[trigger] r[j], term) by {
            if j < s.len() {
            } else {
                if i < s.len() {
                    assert(task_score(s[i], term) <= task_score(s[s.len() - 1], term));
                }
            }
        }
    } else {
        lemma_stable_insert_sorted(s.drop_last(), x, term);
        lemma_stable_insert_scores(s.drop_last(), x, term, task_score(s.last(), term));
        let inner = stable_insert(s.drop_last(), x, term);
        let r = inner.push(s.last());
        assert forall|i: int, j: int| 0 <= i <= j < r.len() implies task_score(#[trigger] r[i], term)
            <= task_score(#[trigger] r[j], term) by {
            if j < inner.len() {
            } else {
                if i < inner.len() {
                    assert(task_score(inner[i], term) <= task_score(s.last(), term));
                }
            }
        }
    }
}

/// Inserting a task adds exactly that task to the list's contents.
proof fn lemma_stable_insert_multiset(s: Seq<Task>, x: Task, term: Seq<char>)
    ensures
        stable_insert(s, x, term).to_multiset() == s.to_multiset().insert(x),
    decreases s.len(),
{
    broadcast use vstd::seq_lib::group_to_multiset_ensures;

    if s.len() == 0 {
        assert(seq![x] =~= s.push(x));
    } else if task_score(s.last(), term) <= task_score(x, term) {
    } else {
        lemma_stable_insert_multiset(s.drop_last(), x, term);
        let inner = stable_insert(s.drop_last(), x, term);
        assert(s.drop_last().push(s.last()) =~= s);
        assert(inner.push(s.last()).to_multiset() =~= s.to_multiset().insert(x));
    }
}

/// Ranking returns the same tasks: nothing is added, dropped or repeated,
/// only the order changes.
pub proof fn lemma_sort_by_score_permutes(s: Seq<Task>, term: Seq<char>)
    ensures
        sorted_by_score(s, term).to_multiset() == s.to_multiset(),
    decreases s.len(),
{
    broadcast use vstd::seq_lib::group_to_multiset_ensures;

    if s.len() == 0 {
    } else {
        lemma_sort_by_score_permutes(s.drop_last(), term);
        lemma_stable_insert_multiset(sorted_by_score(s.drop_last(), term), s.last(), term);
        assert(s.drop_last().push(s.last()) =~= s);
    }
}

/// Ranking a task list leaves the scores non-decreasing from front to
/// back, whatever the list and the term.
pub proof fn lemma_sort_by_score_sorted(s: Seq<Task>, term: Seq<char>)
    ensures
        scores_non_decreasing(sorted_by_score(s, term), term),
    decreases s.len(),
{
    if s.len() == 0 {
    } else {
        lemma_sort_by_score_sorted(s.drop_last(), term);
        lemma_stable_insert_sorted(sorted_by_score(s.drop_last(), term), s.last(), term);
    }
}

/// Returns the given tasks reordered by ascending relevance score; tasks
/// with equal scores keep the relative order they arrived in.
pub fn sort_by_score(tasks: Vec<Task>, term: &str) -> (r: Vec<Task>)
    ensures
        r@ == sorted_by_score(tasks@, term@),
{
    let n = tasks.len();
    let mut out: Vec<Task> = Vec::new();
    let mut out_scores: Vec<usize> = Vec::new();
    let mut i: usize = 0;
    proof {
        assert(tasks@.take(0) =~= Seq::<Task>::empty());
    }
    while i < n
        invariant
            n == tasks@.len(),
            i <= n,
            out@.len() == out_scores@.len(),
            forall|k: int|
                0 <= k < out@.len() ==> out_scores@[k] as int == task_score(
                    #[trigger] out@[k],
                    term@,
                ),
            out@ == sorted_by_score(tasks@.take(i as int), term@),
        decreases n - i,
    {
        let t = tasks[i].clone();
        let sc = score_task(&t, term);
        let ghost old_out = out@;
        let mut pos: usize = out.len();
        while pos > 0 && out_scores[pos - 1] > sc
            invariant
                out@.len() == out_scores@.len(),
                pos <= out@.len(),
                forall|k: int|
                    0 <= k < out@.len() ==> out_scores@[k] as int == task_score(
                        #[trigger] out@[k],
                        term@,
                    ),
                forall|k: int|
                    pos <= k < out@.len() ==> task_score(#[trigger] out@[k], term@) > sc as int,
            decreases pos,
        {
            pos = pos - 1;
        }
        out.insert(pos, t);
        out_scores.insert(pos, sc);
        i = i + 1;
        proof {
            lemma_stable_insert_at(old_out, t, term@, pos as int);
            assert(tasks@.take(i as int).drop_last() =~= tasks@.take(i - 1));
            assert(tasks@.take(i as int).last() == tasks@[i - 1]);
        }
    }
    proof {
        assert(tasks@.take(n as int) =~= tasks@);
    }
    out
}

} // verus!
