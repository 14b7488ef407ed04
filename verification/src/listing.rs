//! Which tasks the task list shows, and in what order: the tasks whose title
//! contains the search text (ignoring case), sorted by due date or by id,
//! ties keeping their order in the list.

use vstd::prelude::*;
use crate::task::{TaskInstance, TaskTemplate};
use crate::text::{
    chars_less, chars_of, contains_chars, contains_exec, lemma_chars_less_asymmetric,
    lemma_chars_less_irreflexive, lemma_chars_less_total, lemma_chars_less_transitive,
    lemma_contains_empty, str_equal, str_less,
};

verus! {

/// The text that `str::to_lowercase` makes of `s`.
pub uninterp spec fn lowercased(s: Seq<char>) -> Seq<char>;

/// Calls `str::to_lowercase`; the contract claims the name `lowercased` and
/// that the empty string stays empty.
#[verifier::external_body]
fn lowercase(s: &str) -> (r: String)
    ensures
        r@ == lowercased(s@),
        s@.len() == 0 ==> r@.len() == 0,
{
    s.to_lowercase()
}

/// A title that the search text picks out: the lowercased title contains the
/// lowercased search text.
pub open spec fn title_matches(title: Seq<char>, query: Seq<char>) -> bool {
    contains_chars(lowercased(title), lowercased(query))
}

/// Whether the list is sorted by due date (`date`) rather than by id.
pub open spec fn sorts_by_date(sort_by: Seq<char>) -> bool {
    sort_by == "date"@
}

/// Task `a`'s sort key comes strictly before task `b`'s.
pub open spec fn key_less(
    a: (TaskInstance, TaskTemplate),
    b: (TaskInstance, TaskTemplate),
    by_date: bool,
) -> bool {
    if by_date {
        chars_less(a.0.due_date@, b.0.due_date@)
    } else {
        a.0.id < b.0.id
    }
}

/// Task `i` is shown before task `j`: its key is smaller, or the keys tie and
/// it stands earlier in the list.
pub open spec fn shown_before(
    tasks: Seq<(TaskInstance, TaskTemplate)>,
    by_date: bool,
    i: int,
    j: int,
) -> bool {
    key_less(tasks[i], tasks[j], by_date) || (!key_less(tasks[j], tasks[i], by_date) && i < j)
}

/// What the list shows: the positions of the matching tasks, each once, in
/// display order.
pub open spec fn is_display_order(
    tasks: Seq<(TaskInstance, TaskTemplate)>,
    query: Seq<char>,
    by_date: bool,
    order: Seq<usize>,
) -> bool {
    &&& forall|k: int| 0 <= k < order.len() ==> #[trigger] order[k] < tasks.len()
    &&& forall|k: int| 0 <= k < order.len() ==> title_matches(tasks[#[trigger] order[k] as int].1.title@, query)
    &&& forall|i: int|
        0 <= i < tasks.len() && title_matches(tasks[i].1.title@, query) ==> #[trigger] order.contains(i as usize)
    &&& forall|k: int, l: int|
        0 <= k < l < order.len() ==> shown_before(tasks, by_date, #[trigger] order[k] as int, #[trigger] order[l] as int)
}

/// The order on tasks is transitive.
pub proof fn lemma_shown_before_transitive(
    tasks: Seq<(TaskInstance, TaskTemplate)>,
    by_date: bool,
    i: int,
    j: int,
    k: int,
)
    requires
        shown_before(tasks, by_date, i, j),
        shown_before(tasks, by_date, j, k),
    ensures
        shown_before(tasks, by_date, i, k),
{
    if by_date {
        let a = tasks[i].0.due_date@;
        let b = tasks[j].0.due_date@;
        let c = tasks[k].0.due_date@;
        lemma_chars_less_total(a, b);
        lemma_chars_less_total(b, c);
        lemma_chars_less_total(a, c);
        lemma_chars_less_irreflexive(a);
        lemma_chars_less_irreflexive(b);
        if chars_less(a, b) && chars_less(b, c) {
            lemma_chars_less_transitive(a, b, c);
        }
        if chars_less(a, c) {
            lemma_chars_less_asymmetric(a, c);
        }
        if chars_less(c, a) {
            lemma_chars_less_asymmetric(c, a);
            if chars_less(a, b) {
                lemma_chars_less_transitive(c, a, b);
                lemma_chars_less_asymmetric(c, b);
            }
            if chars_less(b, c) {
                lemma_chars_less_transitive(b, c, a);
                lemma_chars_less_asymmetric(b, a);
            }
        }
    }
}

/// Of two different positions, one is shown before the other, and not both.
pub proof fn lemma_shown_before_total(
    tasks: Seq<(TaskInstance, TaskTemplate)>,
    by_date: bool,
    i: int,
    j: int,
)
    requires
        i != j,
    ensures
        shown_before(tasks, by_date, i, j) != shown_before(tasks, by_date, j, i),
{
    if by_date {
        let a = tasks[i].0.due_date@;
        let b = tasks[j].0.due_date@;
        lemma_chars_less_total(a, b);
        lemma_chars_less_irreflexive(a);
        if chars_less(a, b) {
            lemma_chars_less_asymmetric(a, b);
        }
    }
}

/// Whether task `i` is shown before task `j`.
fn shown_before_exec(tasks: &Vec<(TaskInstance, TaskTemplate)>, by_date: bool, i: usize, j: usize) -> (r: bool)
    requires
        i < tasks@.len(),
        j < tasks@.len(),
    ensures
        r == shown_before(tasks@, by_date, i as int, j as int),
{
    let a = &tasks[i].0;
    let b = &tasks[j].0;
    if by_date {
        let ab = str_less(a.due_date.as_str(), b.due_date.as_str());
        let ba = str_less(b.due_date.as_str(), a.due_date.as_str());
        ab || (!ba && i < j)
    } else {
        a.id < b.id || (!(b.id < a.id) && i < j)
    }
}

/// The positions of the tasks that the task list shows, in display order:
/// the tasks whose title contains `query` (both lowercased), sorted by due
/// date where `sort_by` is `date` and by id otherwise, ties keeping their
/// order in `tasks`.
pub fn visible_task_order(tasks: &Vec<(TaskInstance, TaskTemplate)>, query: &str, sort_by: &str) -> (order: Vec<usize>)
    ensures
        is_display_order(tasks@, query@, sorts_by_date(sort_by@), order@),
        query@.len() == 0 ==> forall|i: int| 0 <= i < tasks@.len() ==> #[trigger] order@.contains(i as usize),
{
    let by_date = str_equal(sort_by, "date");
    let needle_text = lowercase(query);
    let needle = chars_of(needle_text.as_str());
    let mut order: Vec<usize> = Vec::new();
    let mut i: usize = 0;
    while i < tasks.len()
        invariant
            i <= tasks@.len(),
            needle@ == lowercased(query@),
            by_date == sorts_by_date(sort_by@),
            forall|k: int| 0 <= k < order@.len() ==> #[trigger] order@[k] < i,
            forall|k: int| 0 <= k < order@.len() ==> title_matches(tasks@[#[trigger] order@[k] as int].1.title@, query@),
            forall|x: int|
                0 <= x < i && title_matches(tasks@[x].1.title@, query@) ==> #[trigger] order@.contains(x as usize),
            forall|k: int, l: int|
                0 <= k < l < order@.len() ==> shown_before(tasks@, by_date, #[trigger] order@[k] as int, #[trigger] order@[l] as int),
        decreases tasks.len() - i,
    {
        let hay_text = lowercase(tasks[i].1.title.as_str());
        let hay = chars_of(hay_text.as_str());
        if contains_exec(&hay, &needle) {
            // Find where task i goes: after every shown task that comes before it.
            let mut p: usize = order.len();
            while p > 0 && shown_before_exec(tasks, by_date, i, order[p - 1])
                invariant
                    i < tasks@.len(),
                    p <= order@.len(),
                    forall|k: int| 0 <= k < order@.len() ==> #[trigger] order@[k] < i,
                    forall|k: int, l: int|
                        0 <= k < l < order@.len() ==> shown_before(tasks@, by_date, #[trigger] order@[k] as int, #[trigger] order@[l] as int),
                    forall|k: int| p <= k < order@.len() ==> shown_before(tasks@, by_date, i as int, #[trigger] order@[k] as int),
                decreases p,
            {
                p = p - 1;
            }
            let ghost old_order = order@;
            proof {
                if p > 0 {
                    lemma_shown_before_total(tasks@, by_date, i as int, old_order[p - 1] as int);
                }
            }
            order.insert(p, i);
            assert forall|k: int, l: int|
                0 <= k < l < order@.len() implies shown_before(tasks@, by_date, #[trigger] order@[k] as int, #[trigger] order@[l] as int) by {
                if l < p {
                    assert(order@[k] == old_order[k] && order@[l] == old_order[l]);
                } else if l == p {
                    if k < p - 1 {
                        lemma_shown_before_transitive(tasks@, by_date, old_order[k] as int, old_order[p - 1] as int, i as int);
                    }
                } else if k < p {
                    assert(order@[l] == old_order[l - 1]);
                } else if k == p {
                    assert(order@[l] == old_order[l - 1]);
                    assert(shown_before(tasks@, by_date, i as int, old_order[l - 1] as int));
                } else {
                    assert(order@[k] == old_order[k - 1]);
                    assert(order@[l] == old_order[l - 1]);
                }
            }
            assert forall|x: int|
                0 <= x < i + 1 && title_matches(tasks@[x].1.title@, query@) implies #[trigger] order@.contains(x as usize) by {
                if x == i {
                    assert(order@[p as int] == i);
                } else {
                    assert(old_order.contains(x as usize));
                    let k = choose|k: int| 0 <= k < old_order.len() && old_order[k] == x as usize;
                    if k < p {
                        assert(order@[k] == x as usize);
                    } else {
                        assert(order@[k + 1] == x as usize);
                    }
                }
            }
            assert forall|k: int| 0 <= k < order@.len() implies title_matches(tasks@[#[trigger] order@[k] as int].1.title@, query@) by {
                if k < p {
                } else if k > p {
                    assert(order@[k] == old_order[k - 1]);
                }
            }
            assert forall|k: int| 0 <= k < order@.len() implies #[trigger] order@[k] < i + 1 by {
                if k > p {
                    assert(order@[k] == old_order[k - 1]);
                }
            }
        } else {
            assert forall|x: int|
                0 <= x < i + 1 && title_matches(tasks@[x].1.title@, query@) implies #[trigger] order@.contains(x as usize) by {
            }
        }
        i = i + 1;
    }
    proof {
        if query@.len() == 0 {
            assert forall|x: int| 0 <= x < tasks@.len() implies #[trigger] order@.contains(x as usize) by {
                law_empty_query_shows_all(tasks@, query@, by_date, order@, x);
            }
        }
    }
    order
}

/// Where the lowercased search text is empty, the list shows every task.
pub proof fn law_empty_query_shows_all(
    tasks: Seq<(TaskInstance, TaskTemplate)>,
    query: Seq<char>,
    by_date: bool,
    order: Seq<usize>,
    i: int,
)
    requires
        lowercased(query).len() == 0,
        is_display_order(tasks, query, by_date, order),
        0 <= i < tasks.len(),
    ensures
        order.contains(i as usize),
{
    lemma_contains_empty(lowercased(tasks[i].1.title@));
    assert(lowercased(query) =~= Seq::<char>::empty());
}

/// The display order holds each shown task once.
pub proof fn law_display_order_no_repeats(
    tasks: Seq<(TaskInstance, TaskTemplate)>,
    query: Seq<char>,
    by_date: bool,
    order: Seq<usize>,
)
    requires
        is_display_order(tasks, query, by_date, order),
    ensures
        order.no_duplicates(),
{
    assert forall|k: int, l: int| 0 <= k < order.len() && 0 <= l < order.len() && k != l implies order[k] != order[l] by {
        if k < l {
            assert(shown_before(tasks, by_date, order[k] as int, order[l] as int));
        } else {
            assert(shown_before(tasks, by_date, order[l] as int, order[k] as int));
        }
        if order[k] == order[l] {
            let x = order[k] as int;
            if by_date {
                lemma_chars_less_irreflexive(tasks[x].0.due_date@);
            }
        }
    }
}


/// The list shows a task exactly when its lowercased title contains the
/// lowercased search text.
pub proof fn law_shown_iff_title_contains(
    tasks: Seq<(TaskInstance, TaskTemplate)>,
    query: Seq<char>,
    by_date: bool,
    order: Seq<usize>,
    i: usize,
)
    requires
        is_display_order(tasks, query, by_date, order),
        i < tasks.len(),
    ensures
        order.contains(i) <==> contains_chars(lowercased(tasks[i as int].1.title@), lowercased(query)),
{
    if order.contains(i) {
        let k = choose|k: int| 0 <= k < order.len() && order[k] == i;
        assert(title_matches(tasks[order[k] as int].1.title@, query));
    }
    if title_matches(tasks[i as int].1.title@, query) {
        assert(order.contains(i as int as usize));
    }
}

/// Sorted by date (`sort_by` is `date`), a task with an earlier whole
/// due-date text is shown before one with a later text, and tasks with the
/// same due date keep their order in the list.
pub proof fn law_date_sort_order(
    tasks: Seq<(TaskInstance, TaskTemplate)>,
    query: Seq<char>,
    sort_by: Seq<char>,
    order: Seq<usize>,
    k: int,
    l: int,
)
    requires
        sort_by == "date"@,
        is_display_order(tasks, query, sorts_by_date(sort_by), order),
        0 <= k < order.len(),
        0 <= l < order.len(),
        chars_less(tasks[order[k] as int].0.due_date@, tasks[order[l] as int].0.due_date@)
            || (tasks[order[k] as int].0.due_date@ == tasks[order[l] as int].0.due_date@ && order[k] < order[l]),
    ensures
        k < l,
{
    let i = order[k] as int;
    let j = order[l] as int;
    let a = tasks[i].0.due_date@;
    let b = tasks[j].0.due_date@;
    lemma_chars_less_irreflexive(a);
    if chars_less(a, b) {
        lemma_chars_less_asymmetric(a, b);
    }
    if l < k {
        assert(shown_before(tasks, true, j, i));
    }
}

/// Sorted by id (`sort_by` is anything but `date`), a task with a smaller id
/// is shown before one with a larger id, and tasks with the same id keep their
/// order in the list.
pub proof fn law_id_sort_order(
    tasks: Seq<(TaskInstance, TaskTemplate)>,
    query: Seq<char>,
    sort_by: Seq<char>,
    order: Seq<usize>,
    k: int,
    l: int,
)
    requires
        sort_by != "date"@,
        is_display_order(tasks, query, sorts_by_date(sort_by), order),
        0 <= k < order.len(),
        0 <= l < order.len(),
        tasks[order[k] as int].0.id < tasks[order[l] as int].0.id
            || (tasks[order[k] as int].0.id == tasks[order[l] as int].0.id && order[k] < order[l]),
    ensures
        k < l,
{
    let i = order[k] as int;
    let j = order[l] as int;
    if l < k {
        assert(shown_before(tasks, false, j, i));
    }
}
} // verus!
