//! Display orderings. Each listing returns its rows in the order a stable
//! insertion into an already-ordered prefix produces, written out by the
//! `placed` / `in_order` spec functions; ties keep their table order.

use vstd::prelude::*;
use crate::models::list::{List, ListView};
use crate::models::tag::{Tag, TagView};
use crate::models::task::{Priority, Task, TaskView};
use crate::text::{lex_le, lex_le_exec};

verus! {

/// The sort key a task listing uses.
#[derive(Clone, Copy, Debug)]
pub enum TaskOrder {
    /// Order index ascending, then creation time descending.
    Standard,
    /// Update time descending (the trash view).
    TrashNewest,
    /// Completion time descending, then update time descending.
    CompletedRecent,
    /// Incomplete first, then due date ascending (absent dates first),
    /// then priority descending (the due-window views).
    Agenda,
}

/// An optional timestamp as a total key: an absent value sorts below every
/// present one.
pub open spec fn opt_key(o: Option<i64>) -> int {
    match o {
        Some(v) => v as int,
        None => i64::MIN - 1,
    }
}

pub open spec fn prio_rank(p: Priority) -> int {
    p.spec_to_i32() as int
}

/// Whether `a` may stand before `b` under the key.
pub open spec fn task_le(k: TaskOrder, a: TaskView, b: TaskView) -> bool {
    match k {
        TaskOrder::Standard => a.order < b.order || (a.order == b.order && a.created_at
            >= b.created_at),
        TaskOrder::TrashNewest => a.updated_at >= b.updated_at,
        TaskOrder::CompletedRecent => opt_key(a.completed_at) > opt_key(b.completed_at) || (opt_key(
            a.completed_at,
        ) == opt_key(b.completed_at) && a.updated_at >= b.updated_at),
        TaskOrder::Agenda => (!a.completed && b.completed) || (a.completed == b.completed && (
        opt_key(a.due_date) < opt_key(b.due_date) || (opt_key(a.due_date) == opt_key(b.due_date)
            && prio_rank(a.priority) >= prio_rank(b.priority)))),
    }
}

fn opt_lt(a: Option<i64>, b: Option<i64>) -> (r: bool)
    ensures
        r == (opt_key(a) < opt_key(b)),
{
    match (a, b) {
        (Option::None, Option::Some(_)) => true,
        (Option::Some(x), Option::Some(y)) => x < y,
        _ => false,
    }
}

fn opt_eq(a: Option<i64>, b: Option<i64>) -> (r: bool)
    ensures
        r == (opt_key(a) == opt_key(b)),
{
    match (a, b) {
        (Option::None, Option::None) => true,
        (Option::Some(x), Option::Some(y)) => x == y,
        _ => false,
    }
}

fn task_le_exec(k: TaskOrder, a: &Task, b: &Task) -> (r: bool)
    ensures
        r == task_le(k, a@, b@),
{
    match k {
        TaskOrder::Standard => a.order < b.order || (a.order == b.order && a.created_at
            >= b.created_at),
        TaskOrder::TrashNewest => a.updated_at >= b.updated_at,
        TaskOrder::CompletedRecent => opt_lt(b.completed_at, a.completed_at) || (opt_eq(
            a.completed_at,
            b.completed_at,
        ) && a.updated_at >= b.updated_at),
        TaskOrder::Agenda => (!a.completed && b.completed) || (a.completed == b.completed && (
        opt_lt(a.due_date, b.due_date) || (opt_eq(a.due_date, b.due_date) && a.priority.to_i32()
            >= b.priority.to_i32()))),
    }
}

/// `t` inserted behind every element it may stand after: a stable insertion.
pub open spec fn placed(k: TaskOrder, t: TaskView, s: Seq<TaskView>) -> Seq<TaskView>
    decreases s.len(),
{
    if s.len() == 0 {
        seq![t]
    } else if task_le(k, s[0], t) {
        seq![s[0]] + placed(k, t, s.drop_first())
    } else {
        seq![t] + s
    }
}

/// The rows in display order: each row stably inserted in table order.
pub open spec fn in_order(k: TaskOrder, s: Seq<TaskView>) -> Seq<TaskView>
    decreases s.len(),
{
    if s.len() == 0 {
        s
    } else {
        placed(k, s.last(), in_order(k, s.drop_last()))
    }
}

proof fn lemma_placed_split(k: TaskOrder, t: TaskView, s: Seq<TaskView>, j: int)
    requires
        0 <= j <= s.len(),
        forall|m: int| 0 <= m < j ==> task_le(k, #[trigger] s[m], t),
        j < s.len() ==> !task_le(k, s[j], t),
    ensures
        placed(k, t, s) =~= s.take(j) + seq![t] + s.skip(j),
    decreases j,
{
    if j == 0 {
        assert(s.take(0) =~= Seq::<TaskView>::empty());
        assert(s.skip(0) =~= s);
        if s.len() == 0 {
            assert(placed(k, t, s) =~= seq![t] + s);
        }
    } else {
        let rest = s.drop_first();
        lemma_placed_split(k, t, rest, j - 1);
        assert(seq![s[0]] + rest.take(j - 1) =~= s.take(j));
        assert(rest.skip(j - 1) =~= s.skip(j));
        assert(placed(k, t, s) =~= seq![s[0]] + (rest.take(j - 1) + seq![t] + rest.skip(j - 1)));
        assert(seq![s[0]] + (rest.take(j - 1) + seq![t] + rest.skip(j - 1)) =~= s.take(j) + seq![t]
            + s.skip(j));
    }
}

/// An insertion adds exactly the inserted row.
pub proof fn lemma_placed_member(k: TaskOrder, t: TaskView, s: Seq<TaskView>)
    ensures
        forall|x: int|
            0 <= x < placed(k, t, s).len() ==> (#[trigger] placed(k, t, s)[x] == t || exists|m: int|
                0 <= m < s.len() && s[m] == placed(k, t, s)[x]),
    decreases s.len(),
{
    let r = placed(k, t, s);
    if s.len() > 0 && task_le(k, s[0], t) {
        lemma_placed_member(k, t, s.drop_first());
        let rest = placed(k, t, s.drop_first());
        assert forall|x: int| 0 <= x < r.len() implies (#[trigger] r[x] == t || exists|m: int|
            0 <= m < s.len() && s[m] == r[x]) by {
            if x == 0 {
                assert(s[0] == r[0]);
            } else {
                assert(r[x] == rest[x - 1]);
                if rest[x - 1] != t {
                    let m = choose|m: int|
                        0 <= m < s.drop_first().len() && s.drop_first()[m] == rest[x - 1];
                    assert(s[m + 1] == r[x]);
                }
            }
        }
    }
}

/// Every row of an ordered listing comes from its input.
pub proof fn lemma_in_order_member(k: TaskOrder, s: Seq<TaskView>)
    ensures
        forall|x: int|
            0 <= x < in_order(k, s).len() ==> exists|m: int|
                0 <= m < s.len() && s[m] == #[trigger] in_order(k, s)[x],
    decreases s.len(),
{
    let r = in_order(k, s);
    if s.len() > 0 {
        lemma_in_order_member(k, s.drop_last());
        lemma_placed_member(k, s.last(), in_order(k, s.drop_last()));
        let rest = in_order(k, s.drop_last());
        assert forall|x: int| 0 <= x < r.len() implies exists|m: int|
            0 <= m < s.len() && s[m] == #[trigger] r[x] by {
            if r[x] == s.last() {
                assert(s[s.len() - 1] == r[x]);
            } else {
                let w = choose|w: int| 0 <= w < rest.len() && rest[w] == r[x];
                let m = choose|m: int|
                    0 <= m < s.drop_last().len() && s.drop_last()[m] == rest[w];
                assert(s[m] == r[x]);
            }
        }
    }
}

/// Rows stand in display order: each may stand before every later one.
pub open spec fn sorted_by(k: TaskOrder, s: Seq<TaskView>) -> bool {
    forall|a: int, b: int| 0 <= a < b < s.len() ==> task_le(k, #[trigger] s[a], #[trigger] s[b])
}

proof fn lemma_placed_sorted(k: TaskOrder, t: TaskView, s: Seq<TaskView>)
    requires
        sorted_by(k, s),
    ensures
        sorted_by(k, placed(k, t, s)),
    decreases s.len(),
{
    let r = placed(k, t, s);
    if s.len() == 0 {
    } else if task_le(k, s[0], t) {
        assert forall|a: int, b: int|
            0 <= a < b < s.drop_first().len() implies task_le(
            k,
            #[trigger] s.drop_first()[a],
            #[trigger] s.drop_first()[b],
        ) by {
            assert(task_le(k, s[a + 1], s[b + 1]));
        }
        lemma_placed_sorted(k, t, s.drop_first());
        let rest = placed(k, t, s.drop_first());
        lemma_placed_member(k, t, s.drop_first());
        assert forall|a: int, b: int| 0 <= a < b < r.len() implies task_le(
            k,
            #[trigger] r[a],
            #[trigger] r[b],
        ) by {
            if a == 0 {
                assert(r[b] == rest[b - 1]);
                if rest[b - 1] == t {
                } else {
                    let m = choose|m: int|
                        0 <= m < s.drop_first().len() && s.drop_first()[m] == rest[b - 1];
                    assert(task_le(k, s[0], s[m + 1]));
                }
            } else {
                assert(r[a] == rest[a - 1] && r[b] == rest[b - 1]);
            }
        }
    } else {
        assert forall|a: int, b: int| 0 <= a < b < r.len() implies task_le(
            k,
            #[trigger] r[a],
            #[trigger] r[b],
        ) by {
            if a == 0 {
                assert(!task_le(k, s[0], t));
                assert(task_le(k, t, s[0]));
                assert(r[b] == s[b - 1]);
                if b > 1 {
                    assert(task_le(k, s[0], s[b - 1]));
                }
            } else {
                assert(r[a] == s[a - 1] && r[b] == s[b - 1]);
            }
        }
    }
}

/// Every listing really is in its display order.
pub proof fn lemma_in_order_sorted(k: TaskOrder, s: Seq<TaskView>)
    ensures
        sorted_by(k, in_order(k, s)),
    decreases s.len(),
{
    if s.len() > 0 {
        lemma_in_order_sorted(k, s.drop_last());
        lemma_placed_sorted(k, s.last(), in_order(k, s.drop_last()));
    }
}

/// An insertion keeps what was there and adds the inserted row.
pub proof fn lemma_placed_contains(k: TaskOrder, t: TaskView, s: Seq<TaskView>, v: TaskView)
    requires
        v == t || s.contains(v),
    ensures
        placed(k, t, s).contains(v),
    decreases s.len(),
{
    let r = placed(k, t, s);
    if s.len() == 0 {
        assert(r[0] == t);
    } else if task_le(k, s[0], t) {
        if v == s[0] {
            assert(r[0] == v);
        } else {
            if s.contains(v) && v != s[0] {
                let i = choose|i: int| 0 <= i < s.len() && s[i] == v;
                assert(s.drop_first()[i - 1] == v);
                assert(s.drop_first().contains(v));
            }
            lemma_placed_contains(k, t, s.drop_first(), v);
            let rest = placed(k, t, s.drop_first());
            let i = choose|i: int| 0 <= i < rest.len() && rest[i] == v;
            assert(r[i + 1] == v);
        }
    } else {
        if v == t {
            assert(r[0] == v);
        } else {
            let i = choose|i: int| 0 <= i < s.len() && s[i] == v;
            assert(r[i + 1] == v);
        }
    }
}

/// An ordered listing keeps every row of its input.
pub proof fn lemma_in_order_contains(k: TaskOrder, s: Seq<TaskView>, v: TaskView)
    requires
        s.contains(v),
    ensures
        in_order(k, s).contains(v),
    decreases s.len(),
{
    if s.len() > 0 {
        if v == s.last() {
            lemma_placed_contains(k, s.last(), in_order(k, s.drop_last()), v);
        } else {
            let i = choose|i: int| 0 <= i < s.len() && s[i] == v;
            assert(s.drop_last()[i] == v);
            assert(s.drop_last().contains(v));
            lemma_in_order_contains(k, s.drop_last(), v);
            lemma_placed_contains(k, s.last(), in_order(k, s.drop_last()), v);
        }
    }
}

/// Returns the tasks in display order under the key.
pub fn sort_tasks(input: &Vec<Task>, k: TaskOrder) -> (r: Vec<Task>)
    ensures
        r.deep_view() == in_order(k, input.deep_view()),
{
    let mut out: Vec<Task> = Vec::new();
    proof {
        assert(input.deep_view().take(0) =~= Seq::<TaskView>::empty());
        assert(out.deep_view() =~= in_order(k, input.deep_view().take(0)));
    }
    let mut i: usize = 0;
    while i < input.len()
        invariant
            i <= input.len(),
            out.deep_view() == in_order(k, input.deep_view().take(i as int)),
        decreases input.len() - i,
    {
        let t = input[i].clone();
        proof {
            assert(t@ == input.deep_view()[i as int]);
        }
        let ghost before = out.deep_view();
        let mut j: usize = 0;
        while j < out.len() && task_le_exec(k, &out[j], &t)
            invariant
                j <= out.len(),
                out.deep_view() == before,
                t@ == input.deep_view()[i as int],
                forall|m: int| 0 <= m < j ==> task_le(k, #[trigger] before[m], t@),
            decreases out.len() - j,
        {
            j = j + 1;
        }
        out.insert(j, t);
        proof {
            lemma_placed_split(k, input.deep_view()[i as int], before, j as int);
            assert(out.deep_view() =~= before.take(j as int) + seq![input.deep_view()[i as int]]
                + before.skip(j as int));
            let stepped = input.deep_view().take(i as int + 1);
            assert(stepped.drop_last() =~= input.deep_view().take(i as int));
            assert(stepped.last() == input.deep_view()[i as int]);
            assert(out.deep_view() =~= in_order(k, stepped));
        }
        i = i + 1;
    }
    proof {
        assert(input.deep_view().take(input.len() as int) =~= input.deep_view());
    }
    out
}

/// The list table's display order: order index ascending, then creation
/// time ascending.
pub open spec fn list_le(a: ListView, b: ListView) -> bool {
    a.order < b.order || (a.order == b.order && a.created_at <= b.created_at)
}

pub open spec fn placed_list(l: ListView, s: Seq<ListView>) -> Seq<ListView>
    decreases s.len(),
{
    if s.len() == 0 {
        seq![l]
    } else if list_le(s[0], l) {
        seq![s[0]] + placed_list(l, s.drop_first())
    } else {
        seq![l] + s
    }
}

pub open spec fn lists_in_order(s: Seq<ListView>) -> Seq<ListView>
    decreases s.len(),
{
    if s.len() == 0 {
        s
    } else {
        placed_list(s.last(), lists_in_order(s.drop_last()))
    }
}

proof fn lemma_placed_list_split(l: ListView, s: Seq<ListView>, j: int)
    requires
        0 <= j <= s.len(),
        forall|m: int| 0 <= m < j ==> list_le(#[trigger] s[m], l),
        j < s.len() ==> !list_le(s[j], l),
    ensures
        placed_list(l, s) =~= s.take(j) + seq![l] + s.skip(j),
    decreases j,
{
    if j == 0 {
        assert(s.take(0) =~= Seq::<ListView>::empty());
        assert(s.skip(0) =~= s);
        if s.len() == 0 {
            assert(placed_list(l, s) =~= seq![l] + s);
        }
    } else {
        let rest = s.drop_first();
        lemma_placed_list_split(l, rest, j - 1);
        assert(seq![s[0]] + rest.take(j - 1) =~= s.take(j));
        assert(rest.skip(j - 1) =~= s.skip(j));
        assert(placed_list(l, s) =~= seq![s[0]] + (rest.take(j - 1) + seq![l] + rest.skip(j - 1)));
        assert(seq![s[0]] + (rest.take(j - 1) + seq![l] + rest.skip(j - 1)) =~= s.take(j) + seq![l]
            + s.skip(j));
    }
}

fn list_le_exec(a: &List, b: &List) -> (r: bool)
    ensures
        r == list_le(a@, b@),
{
    a.order < b.order || (a.order == b.order && a.created_at <= b.created_at)
}

/// Returns the lists in display order.
pub fn sort_lists(input: &Vec<List>) -> (r: Vec<List>)
    ensures
        r.deep_view() == lists_in_order(input.deep_view()),
{
    let mut out: Vec<List> = Vec::new();
    proof {
        assert(input.deep_view().take(0) =~= Seq::<ListView>::empty());
        assert(out.deep_view() =~= lists_in_order(input.deep_view().take(0)));
    }
    let mut i: usize = 0;
    while i < input.len()
        invariant
            i <= input.len(),
            out.deep_view() == lists_in_order(input.deep_view().take(i as int)),
        decreases input.len() - i,
    {
        let l = input[i].clone();
        proof {
            assert(l@ == input.deep_view()[i as int]);
        }
        let ghost before = out.deep_view();
        let mut j: usize = 0;
        while j < out.len() && list_le_exec(&out[j], &l)
            invariant
                j <= out.len(),
                out.deep_view() == before,
                l@ == input.deep_view()[i as int],
                forall|m: int| 0 <= m < j ==> list_le(#[trigger] before[m], l@),
            decreases out.len() - j,
        {
            j = j + 1;
        }
        out.insert(j, l);
        proof {
            lemma_placed_list_split(input.deep_view()[i as int], before, j as int);
            assert(out.deep_view() =~= before.take(j as int) + seq![input.deep_view()[i as int]]
                + before.skip(j as int));
            let stepped = input.deep_view().take(i as int + 1);
            assert(stepped.drop_last() =~= input.deep_view().take(i as int));
            assert(stepped.last() == input.deep_view()[i as int]);
            assert(out.deep_view() =~= lists_in_order(stepped));
        }
        i = i + 1;
    }
    proof {
        assert(input.deep_view().take(input.len() as int) =~= input.deep_view());
    }
    out
}

/// Lists stand in display order.
pub open spec fn lists_sorted(s: Seq<ListView>) -> bool {
    forall|a: int, b: int| 0 <= a < b < s.len() ==> list_le(#[trigger] s[a], #[trigger] s[b])
}

proof fn lemma_placed_list_sorted(l: ListView, s: Seq<ListView>)
    requires
        lists_sorted(s),
    ensures
        lists_sorted(placed_list(l, s)),
    decreases s.len(),
{
    let r = placed_list(l, s);
    if s.len() == 0 {
    } else if list_le(s[0], l) {
        assert forall|a: int, b: int|
            0 <= a < b < s.drop_first().len() implies list_le(
            #[trigger] s.drop_first()[a],
            #[trigger] s.drop_first()[b],
        ) by {
            assert(list_le(s[a + 1], s[b + 1]));
        }
        lemma_placed_list_sorted(l, s.drop_first());
        let rest = placed_list(l, s.drop_first());
        lemma_placed_list_member(l, s.drop_first());
        assert forall|a: int, b: int| 0 <= a < b < r.len() implies list_le(
            #[trigger] r[a],
            #[trigger] r[b],
        ) by {
            if a == 0 {
                assert(r[b] == rest[b - 1]);
                if rest[b - 1] == l {
                } else {
                    let m = choose|m: int|
                        0 <= m < s.drop_first().len() && s.drop_first()[m] == rest[b - 1];
                    assert(list_le(s[0], s[m + 1]));
                }
            } else {
                assert(r[a] == rest[a - 1] && r[b] == rest[b - 1]);
            }
        }
    } else {
        assert forall|a: int, b: int| 0 <= a < b < r.len() implies list_le(
            #[trigger] r[a],
            #[trigger] r[b],
        ) by {
            if a == 0 {
                assert(list_le(l, s[0]));
                assert(r[b] == s[b - 1]);
                if b > 1 {
                    assert(list_le(s[0], s[b - 1]));
                }
            } else {
                assert(r[a] == s[a - 1] && r[b] == s[b - 1]);
            }
        }
    }
}

proof fn lemma_placed_list_member(l: ListView, s: Seq<ListView>)
    ensures
        forall|x: int|
            0 <= x < placed_list(l, s).len() ==> (#[trigger] placed_list(l, s)[x] == l || exists|
                m: int,
            |
                0 <= m < s.len() && s[m] == placed_list(l, s)[x]),
    decreases s.len(),
{
    let r = placed_list(l, s);
    if s.len() > 0 && list_le(s[0], l) {
        lemma_placed_list_member(l, s.drop_first());
        let rest = placed_list(l, s.drop_first());
        assert forall|x: int| 0 <= x < r.len() implies (#[trigger] r[x] == l || exists|m: int|
            0 <= m < s.len() && s[m] == r[x]) by {
            if x == 0 {
                assert(s[0] == r[0]);
            } else {
                assert(r[x] == rest[x - 1]);
                if rest[x - 1] != l {
                    let m = choose|m: int|
                        0 <= m < s.drop_first().len() && s.drop_first()[m] == rest[x - 1];
                    assert(s[m + 1] == r[x]);
                }
            }
        }
    }
}

/// The list listing really is in its display order.
pub proof fn lemma_lists_in_order_sorted(s: Seq<ListView>)
    ensures
        lists_sorted(lists_in_order(s)),
    decreases s.len(),
{
    if s.len() > 0 {
        lemma_lists_in_order_sorted(s.drop_last());
        lemma_placed_list_sorted(s.last(), lists_in_order(s.drop_last()));
    }
}

/// The tag table's display order: name ascending.
pub open spec fn tag_le(a: TagView, b: TagView) -> bool {
    lex_le(a.name, b.name)
}

pub open spec fn placed_tag(t: TagView, s: Seq<TagView>) -> Seq<TagView>
    decreases s.len(),
{
    if s.len() == 0 {
        seq![t]
    } else if tag_le(s[0], t) {
        seq![s[0]] + placed_tag(t, s.drop_first())
    } else {
        seq![t] + s
    }
}

pub open spec fn tags_in_order(s: Seq<TagView>) -> Seq<TagView>
    decreases s.len(),
{
    if s.len() == 0 {
        s
    } else {
        placed_tag(s.last(), tags_in_order(s.drop_last()))
    }
}

proof fn lemma_placed_tag_split(t: TagView, s: Seq<TagView>, j: int)
    requires
        0 <= j <= s.len(),
        forall|m: int| 0 <= m < j ==> tag_le(#[trigger] s[m], t),
        j < s.len() ==> !tag_le(s[j], t),
    ensures
        placed_tag(t, s) =~= s.take(j) + seq![t] + s.skip(j),
    decreases j,
{
    if j == 0 {
        assert(s.take(0) =~= Seq::<TagView>::empty());
        assert(s.skip(0) =~= s);
        if s.len() == 0 {
            assert(placed_tag(t, s) =~= seq![t] + s);
        }
    } else {
        let rest = s.drop_first();
        lemma_placed_tag_split(t, rest, j - 1);
        assert(seq![s[0]] + rest.take(j - 1) =~= s.take(j));
        assert(rest.skip(j - 1) =~= s.skip(j));
        assert(placed_tag(t, s) =~= seq![s[0]] + (rest.take(j - 1) + seq![t] + rest.skip(j - 1)));
        assert(seq![s[0]] + (rest.take(j - 1) + seq![t] + rest.skip(j - 1)) =~= s.take(j) + seq![t]
            + s.skip(j));
    }
}

/// Tags stand in display order.
pub open spec fn tags_sorted(s: Seq<TagView>) -> bool {
    forall|a: int, b: int| 0 <= a < b < s.len() ==> tag_le(#[trigger] s[a], #[trigger] s[b])
}

proof fn lemma_placed_tag_sorted(t: TagView, s: Seq<TagView>)
    requires
        tags_sorted(s),
    ensures
        tags_sorted(placed_tag(t, s)),
    decreases s.len(),
{
    let r = placed_tag(t, s);
    if s.len() == 0 {
    } else if tag_le(s[0], t) {
        assert forall|a: int, b: int|
            0 <= a < b < s.drop_first().len() implies tag_le(
            #[trigger] s.drop_first()[a],
            #[trigger] s.drop_first()[b],
        ) by {
            assert(tag_le(s[a + 1], s[b + 1]));
        }
        lemma_placed_tag_sorted(t, s.drop_first());
        let rest = placed_tag(t, s.drop_first());
        lemma_placed_tag_member(t, s.drop_first());
        assert forall|a: int, b: int| 0 <= a < b < r.len() implies tag_le(
            #[trigger] r[a],
            #[trigger] r[b],
        ) by {
            if a == 0 {
                assert(r[b] == rest[b - 1]);
                if rest[b - 1] == t {
                } else {
                    let m = choose|m: int|
                        0 <= m < s.drop_first().len() && s.drop_first()[m] == rest[b - 1];
                    assert(tag_le(s[0], s[m + 1]));
                }
            } else {
                assert(r[a] == rest[a - 1] && r[b] == rest[b - 1]);
            }
        }
    } else {
        assert forall|a: int, b: int| 0 <= a < b < r.len() implies tag_le(
            #[trigger] r[a],
            #[trigger] r[b],
        ) by {
            if a == 0 {
                assert(tag_le(t, s[0])) by {
                    crate::text::lemma_lex_total(s[0].name, t.name);
                }
                assert(r[b] == s[b - 1]);
                if b > 1 {
                    assert(tag_le(s[0], s[b - 1]));
                    crate::text::lemma_lex_trans(t.name, s[0].name, r[b].name);
                }
            } else {
                assert(r[a] == s[a - 1] && r[b] == s[b - 1]);
            }
        }
    }
}

proof fn lemma_placed_tag_member(t: TagView, s: Seq<TagView>)
    ensures
        forall|x: int|
            0 <= x < placed_tag(t, s).len() ==> (#[trigger] placed_tag(t, s)[x] == t || exists|
                m: int,
            |
                0 <= m < s.len() && s[m] == placed_tag(t, s)[x]),
    decreases s.len(),
{
    let r = placed_tag(t, s);
    if s.len() > 0 && tag_le(s[0], t) {
        lemma_placed_tag_member(t, s.drop_first());
        let rest = placed_tag(t, s.drop_first());
        assert forall|x: int| 0 <= x < r.len() implies (#[trigger] r[x] == t || exists|m: int|
            0 <= m < s.len() && s[m] == r[x]) by {
            if x == 0 {
                assert(s[0] == r[0]);
            } else {
                assert(r[x] == rest[x - 1]);
                if rest[x - 1] != t {
                    let m = choose|m: int|
                        0 <= m < s.drop_first().len() && s.drop_first()[m] == rest[x - 1];
                    assert(s[m + 1] == r[x]);
                }
            }
        }
    }
}

/// The tag listing really is in its display order.
pub proof fn lemma_tags_in_order_sorted(s: Seq<TagView>)
    ensures
        tags_sorted(tags_in_order(s)),
    decreases s.len(),
{
    if s.len() > 0 {
        lemma_tags_in_order_sorted(s.drop_last());
        lemma_placed_tag_sorted(s.last(), tags_in_order(s.drop_last()));
    }
}

/// Returns the tags in display order.
pub fn sort_tags(input: &Vec<Tag>) -> (r: Vec<Tag>)
    ensures
        r.deep_view() == tags_in_order(input.deep_view()),
{
    let mut out: Vec<Tag> = Vec::new();
    proof {
        assert(input.deep_view().take(0) =~= Seq::<TagView>::empty());
        assert(out.deep_view() =~= tags_in_order(input.deep_view().take(0)));
    }
    let mut i: usize = 0;
    while i < input.len()
        invariant
            i <= input.len(),
            out.deep_view() == tags_in_order(input.deep_view().take(i as int)),
        decreases input.len() - i,
    {
        let t = input[i].clone();
        proof {
            assert(t@ == input.deep_view()[i as int]);
        }
        let ghost before = out.deep_view();
        let mut j: usize = 0;
        while j < out.len() && lex_le_exec(out[j].name.as_str(), t.name.as_str())
            invariant
                j <= out.len(),
                out.deep_view() == before,
                t@ == input.deep_view()[i as int],
                forall|m: int| 0 <= m < j ==> tag_le(#[trigger] before[m], t@),
            decreases out.len() - j,
        {
            j = j + 1;
        }
        out.insert(j, t);
        proof {
            lemma_placed_tag_split(input.deep_view()[i as int], before, j as int);
            assert(out.deep_view() =~= before.take(j as int) + seq![input.deep_view()[i as int]]
                + before.skip(j as int));
            let stepped = input.deep_view().take(i as int + 1);
            assert(stepped.drop_last() =~= input.deep_view().take(i as int));
            assert(stepped.last() == input.deep_view()[i as int]);
            assert(out.deep_view() =~= tags_in_order(stepped));
        }
        i = i + 1;
    }
    proof {
        assert(input.deep_view().take(input.len() as int) =~= input.deep_view());
    }
    out
}

} // verus!
