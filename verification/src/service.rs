//! The task store: an in-memory mapping of task name to task record. The
//! model is a map from name to task; the storage is a vector with unique
//! names, which also fixes the order in which selections come out.

use vstd::prelude::*;
use vstd::pervasive::VecAdditionalExecFns;

use crate::chars::{lemma_filter_all, lemma_filter_push, str_eq};
use crate::date::DateTime;
use crate::predicate::{lemma_wildcard_matches_all, matches_input, spec_selects, wild_tok};
use crate::task::{Task, TaskView};

verus! {

broadcast use vstd::seq_lib::group_seq_lib_default;

/// Whether some task in `s` bears the name `n`.
pub open spec fn has_name(s: Seq<TaskView>, n: Seq<char>) -> bool {
    exists|i: int| 0 <= i < s.len() && (#[trigger] s[i]).name == n
}

/// The index of the task named `n` in `s` (meaningful when names are unique).
pub open spec fn idx_of(s: Seq<TaskView>, n: Seq<char>) -> int {
    choose|i: int| 0 <= i < s.len() && (#[trigger] s[i]).name == n
}

/// The map from name to task that a task sequence with unique names spells.
pub open spec fn map_of(s: Seq<TaskView>) -> Map<Seq<char>, TaskView> {
    Map::new(|n: Seq<char>| has_name(s, n), |n: Seq<char>| s[idx_of(s, n)])
}

/// Names are pairwise distinct.
pub open spec fn names_unique(s: Seq<TaskView>) -> bool {
    forall|i: int, j: int|
        0 <= i < j < s.len() ==> (#[trigger] s[i]).name != (#[trigger] s[j]).name
}

/// The selection predicate of an input string, as a function on task views.
pub open spec fn sel_pred(input: Seq<char>) -> spec_fn(TaskView) -> bool {
    |t: TaskView| spec_selects(t, input)
}

/// The keep-predicate of a deletion, as a function on task views.
pub open spec fn keep_pred(name: Seq<char>) -> spec_fn(TaskView) -> bool {
    |t: TaskView| t.name != name
}

/// The in-memory task store.
pub struct TodoListService {
    tasks: Vec<Task>,
}

impl View for TodoListService {
    type V = Map<Seq<char>, TaskView>;

    open spec fn view(&self) -> Map<Seq<char>, TaskView> {
        map_of(self.tasks_seq())
    }
}

impl TodoListService {
    /// The stored tasks, in storage order.
    pub closed spec fn tasks_seq(&self) -> Seq<TaskView> {
        self.tasks@.map_values(|t: Task| t@)
    }

    /// Well-formed store: no two tasks share a name.
    pub open spec fn wf(&self) -> bool {
        names_unique(self.tasks_seq())
    }

    /// An empty store.
    pub fn new() -> (s: Self)
        ensures
            s.wf(),
            s@ == Map::<Seq<char>, TaskView>::empty(),
            s.tasks_seq() == Seq::<TaskView>::empty(),
    {
        let s = TodoListService { tasks: Vec::new() };
        proof {
            assert(s.tasks_seq() =~= Seq::<TaskView>::empty());
            assert(s@ =~= Map::<Seq<char>, TaskView>::empty());
        }
        s
    }

    /// The position of the task named `name`, if any.
    fn find_index(&self, name: &str) -> (r: Option<usize>)
        ensures
            match r {
                Some(i) => i < self.tasks_seq().len() && self.tasks_seq()[i as int].name
                    == name@,
                None => !has_name(self.tasks_seq(), name@),
            },
    {
        let mut i: usize = 0;
        while i < self.tasks.len()
            invariant
                i <= self.tasks_seq().len(),
                self.tasks_seq().len() == self.tasks@.len(),
                forall|m: int| 0 <= m < i ==> (#[trigger] self.tasks_seq()[m]).name != name@,
            decreases self.tasks@.len() - i,
        {
            if str_eq(self.tasks[i].name.as_str(), name) {
                return Some(i);
            }
            i = i + 1;
        }
        None
    }

    /// Whether the store holds a task named `name`.
    pub fn contains_task(&self, name: &str) -> (r: bool)
        ensures
            r == self@.contains_key(name@),
    {
        self.find_index(name).is_some()
    }

    /// The task named `name`, if any.
    pub fn get_task(&self, name: &str) -> (r: Option<&Task>)
        requires
            self.wf(),
        ensures
            match r {
                Some(t) => self@.contains_key(name@) && t@ == self@[name@],
                None => !self@.contains_key(name@),
            },
    {
        match self.find_index(name) {
            Some(i) => {
                proof {
                    let s = self.tasks_seq();
                    assert(s[idx_of(s, name@)].name == name@);
                    assert(idx_of(s, name@) == i);
                }
                Some(&self.tasks[i])
            },
            None => None,
        }
    }

    /// Puts `task` into the store under its own name, replacing any task of
    /// that name.
    fn put_task(&mut self, task: Task)
        requires
            old(self).wf(),
        ensures
            final(self).wf(),
            final(self)@ == old(self)@.insert(task@.name, task@),
            final(self).tasks_seq() == if has_name(old(self).tasks_seq(), task@.name) {
                old(self).tasks_seq().update(idx_of(old(self).tasks_seq(), task@.name), task@)
            } else {
                old(self).tasks_seq().push(task@)
            },
    {
        let ghost olds = old(self).tasks_seq();
        let ghost tv = task@;
        let name_str = task.name.clone();
        match self.find_index(name_str.as_str()) {
            Some(i) => {
                proof {
                    assert(olds[idx_of(olds, tv.name)].name == tv.name);
                    assert(idx_of(olds, tv.name) == i);
                }
                self.tasks.set(i, task);
                proof {
                    let news = self.tasks_seq();
                    assert(news =~= olds.update(i as int, tv));
                    assert(final(self).wf());
                    lemma_put_map(olds, news, tv, i as int);
                }
            },
            None => {
                self.tasks.push(task);
                proof {
                    let news = self.tasks_seq();
                    assert(news =~= olds.push(tv));
                    assert forall|a: int, b: int| 0 <= a < b < news.len() implies (
                    #[trigger] news[a]).name != (#[trigger] news[b]).name by {
                        if b == news.len() - 1 {
                            assert(!has_name(olds, tv.name));
                            assert(olds[a].name != tv.name);
                        }
                    }
                    lemma_put_map(olds, news, tv, olds.len() as int);
                }
            },
        }
    }

    /// Adds a task with the given fields and a fresh (not done) status,
    /// replacing any task of that name.
    pub fn add_task(&mut self, name: String, description: String, date: DateTime, category: String)
        requires
            old(self).wf(),
        ensures
            final(self).wf(),
            final(self)@ == old(self)@.insert(
                name@,
                TaskView {
                    name: name@,
                    description: description@,
                    date,
                    category: category@,
                    status: false,
                },
            ),
            final(self).tasks_seq() == if has_name(old(self).tasks_seq(), name@) {
                old(self).tasks_seq().update(
                    idx_of(old(self).tasks_seq(), name@),
                    TaskView {
                        name: name@,
                        description: description@,
                        date,
                        category: category@,
                        status: false,
                    },
                )
            } else {
                old(self).tasks_seq().push(
                    TaskView {
                        name: name@,
                        description: description@,
                        date,
                        category: category@,
                        status: false,
                    },
                )
            },
    {
        let task = Task { name, description, date, category, status: false };
        self.put_task(task);
    }

    /// Marks the task named `name` as done; returns whether it was found.
    pub fn mark_done(&mut self, name: &str) -> (r: bool)
        requires
            old(self).wf(),
        ensures
            final(self).wf(),
            r == old(self)@.contains_key(name@),
            r ==> final(self)@ == old(self)@.insert(
                name@,
                TaskView { status: true, ..old(self)@[name@] },
            ),
            !r ==> *final(self) == *old(self),
    {
        let ghost olds = old(self).tasks_seq();
        match self.find_index(name) {
            Some(i) => {
                proof {
                    assert(olds[idx_of(olds, name@)].name == name@);
                    assert(idx_of(olds, name@) == i);
                }
                let mut t = self.tasks[i].duplicate();
                t.status = true;
                proof {
                    assert(t@ == TaskView { status: true, ..old(self)@[name@] });
                }
                self.put_task(t);
                true
            },
            None => false,
        }
    }

    /// Removes the task named `name`; returns whether it was found. The
    /// remaining tasks keep their order.
    pub fn delete_task(&mut self, name: &str) -> (r: bool)
        requires
            old(self).wf(),
        ensures
            final(self).wf(),
            r == old(self)@.contains_key(name@),
            final(self)@ == old(self)@.remove(name@),
            final(self).tasks_seq() == old(self).tasks_seq().filter(keep_pred(name@)),
    {
        let ghost olds = old(self).tasks_seq();
        let mut out: Vec<Task> = Vec::new();
        let mut found = false;
        let mut i: usize = 0;
        while i < self.tasks.len()
            invariant
                i <= self.tasks@.len(),
                olds == self.tasks_seq(),
                olds.len() == self.tasks@.len(),
                names_unique(olds),
                out@.map_values(|t: Task| t@) == olds.subrange(0, i as int).filter(
                    keep_pred(name@),
                ),
                found == has_name(olds.subrange(0, i as int), name@),
            decreases self.tasks@.len() - i,
        {
            let ghost pre = olds.subrange(0, i as int);
            proof {
                assert(olds.subrange(0, i + 1 as int) =~= pre.push(olds[i as int]));
                lemma_filter_push(pre, keep_pred(name@), olds[i as int]);
            }
            if str_eq(self.tasks[i].name.as_str(), name) {
                found = true;
                proof {
                    assert(olds.subrange(0, i + 1 as int)[i as int].name == name@);
                }
            } else {
                out.push(self.tasks[i].duplicate());
                proof {
                    assert(out@.map_values(|t: Task| t@) =~= pre.filter(keep_pred(name@)).push(
                        olds[i as int],
                    ));
                    assert forall|m: int|
                        0 <= m < olds.subrange(0, i + 1 as int).len() && (#[trigger] olds.subrange(
                            0,
                            i + 1 as int,
                        )[m]).name == name@ implies has_name(pre, name@) by {
                        assert(m < i);
                        assert(pre[m].name == name@);
                    }
                }
            }
            i = i + 1;
        }
        proof {
            assert(olds.subrange(0, olds.len() as int) =~= olds);
        }
        self.tasks = out;
        proof {
            lemma_delete_map(olds, self.tasks_seq(), name@);
        }
        found
    }

    /// Updates the task named `name`: a non-empty new name, description or
    /// category replaces the old one, a given date replaces the old date; an
    /// empty field keeps the old value. Renaming re-keys the store, replacing
    /// any task that already bore the new name. Returns whether `name` was
    /// found; an unknown name leaves the store unchanged.
    pub fn update_task(
        &mut self,
        name: &str,
        new_name: String,
        new_description: String,
        new_date: Option<DateTime>,
        new_category: String,
    ) -> (r: bool)
        requires
            old(self).wf(),
        ensures
            final(self).wf(),
            r == old(self)@.contains_key(name@),
            r ==> ({
                let upd = updated_view(
                    old(self)@[name@],
                    new_name@,
                    new_description@,
                    new_date,
                    new_category@,
                );
                final(self)@ == old(self)@.remove(name@).insert(upd.name, upd)
            }),
            !r ==> *final(self) == *old(self),
    {
        let old_task = match self.get_task(name) {
            Some(t) => t.duplicate(),
            None => {
                return false;
            },
        };
        let upd = Task {
            name: if !new_name.as_str().is_empty() {
                new_name
            } else {
                old_task.name
            },
            description: if !new_description.as_str().is_empty() {
                new_description
            } else {
                old_task.description
            },
            date: match new_date {
                Some(d) => d,
                None => old_task.date,
            },
            category: if !new_category.as_str().is_empty() {
                new_category
            } else {
                old_task.category
            },
            status: old_task.status,
        };
        proof {
            assert(upd@ == updated_view(
                old(self)@[name@],
                new_name@,
                new_description@,
                new_date,
                new_category@,
            ));
        }
        self.delete_task(name);
        self.put_task(upd);
        true
    }

    /// The tasks matched by `input`, in storage order: every task for the
    /// wildcard `*`, otherwise those satisfying the predicate (also in the
    /// `* where <predicate>` spelling).
    pub fn select_tasks(&self, input: &str) -> (r: Vec<Task>)
        ensures
            r@.map_values(|t: Task| t@) == self.tasks_seq().filter(sel_pred(input@)),
    {
        let mut out: Vec<Task> = Vec::new();
        let mut i: usize = 0;
        while i < self.tasks.len()
            invariant
                i <= self.tasks@.len(),
                self.tasks_seq().len() == self.tasks@.len(),
                out@.map_values(|t: Task| t@) == self.tasks_seq().subrange(0, i as int).filter(
                    sel_pred(input@),
                ),
            decreases self.tasks@.len() - i,
        {
            let ghost pre = self.tasks_seq().subrange(0, i as int);
            proof {
                assert(self.tasks_seq().subrange(0, i + 1 as int) =~= pre.push(
                    self.tasks_seq()[i as int],
                ));
                lemma_filter_push(pre, sel_pred(input@), self.tasks_seq()[i as int]);
            }
            if matches_input(&self.tasks[i], input) {
                out.push(self.tasks[i].duplicate());
                proof {
                    assert(out@.map_values(|t: Task| t@) =~= pre.filter(sel_pred(input@)).push(
                        self.tasks_seq()[i as int],
                    ));
                }
            }
            i = i + 1;
        }
        proof {
            assert(self.tasks_seq().subrange(0, self.tasks_seq().len() as int)
                =~= self.tasks_seq());
        }
        out
    }
}

/// Deleting a task and then selecting with the wildcard yields exactly the
/// remaining tasks — none of which bears the deleted name; when every task
/// bore that name, the selection is empty.
pub proof fn lemma_delete_then_select_all(s: Seq<TaskView>, name: Seq<char>)
    ensures
        s.filter(keep_pred(name)).filter(sel_pred(wild_tok())) == s.filter(keep_pred(name)),
        forall|i: int|
            0 <= i < s.filter(keep_pred(name)).len() ==> (#[trigger] s.filter(
                keep_pred(name),
            )[i]).name != name,
        (forall|i: int| 0 <= i < s.len() ==> (#[trigger] s[i]).name == name) ==> s.filter(
            keep_pred(name),
        ).len() == 0,
{
    let rem = s.filter(keep_pred(name));
    assert forall|i: int| 0 <= i < rem.len() implies sel_pred(wild_tok())(#[trigger] rem[i]) by {
        lemma_wildcard_matches_all(rem[i]);
    }
    lemma_filter_all(rem, sel_pred(wild_tok()));
    assert forall|i: int| 0 <= i < rem.len() implies (#[trigger] rem[i]).name != name by {
        s.lemma_filter_pred(keep_pred(name), i);
    }
    if forall|i: int| 0 <= i < s.len() ==> (#[trigger] s[i]).name == name {
        if rem.len() > 0 {
            assert(rem.contains(rem[0]));
            s.lemma_filter_contains_rev(keep_pred(name), rem[0]);
            let j = choose|j: int| 0 <= j < s.len() && s[j] == rem[0];
            assert(s[j].name == name);
            assert(keep_pred(name)(rem[0]));
        }
    }
}

/// The task view after an update: non-empty new fields replace old ones.
pub open spec fn updated_view(
    t: TaskView,
    new_name: Seq<char>,
    new_description: Seq<char>,
    new_date: Option<DateTime>,
    new_category: Seq<char>,
) -> TaskView {
    TaskView {
        name: if new_name.len() > 0 {
            new_name
        } else {
            t.name
        },
        description: if new_description.len() > 0 {
            new_description
        } else {
            t.description
        },
        date: match new_date {
            Some(d) => d,
            None => t.date,
        },
        category: if new_category.len() > 0 {
            new_category
        } else {
            t.category
        },
        status: t.status,
    }
}

/// After writing `tv` at its place (an update at `i`, or a push when
/// `i == olds.len()`), the map gains exactly the binding of `tv.name`.
proof fn lemma_put_map(olds: Seq<TaskView>, news: Seq<TaskView>, tv: TaskView, i: int)
    requires
        names_unique(olds),
        names_unique(news),
        0 <= i <= olds.len(),
        i < olds.len() ==> news == olds.update(i, tv) && olds[i].name == tv.name,
        i == olds.len() ==> news == olds.push(tv) && !has_name(olds, tv.name),
    ensures
        map_of(news) == map_of(olds).insert(tv.name, tv),
{
    let lhs = map_of(news);
    let rhs = map_of(olds).insert(tv.name, tv);
    assert(news.len() == olds.len() + if i < olds.len() {
        0int
    } else {
        1int
    });
    assert forall|n: Seq<char>| lhs.contains_key(n) <==> rhs.contains_key(n) by {
        if n == tv.name {
            assert(news[i].name == tv.name);
            assert(has_name(news, n));
        } else {
            if has_name(news, n) {
                let a = choose|a: int| 0 <= a < news.len() && (#[trigger] news[a]).name == n;
                assert(a != i);
                assert(olds[a].name == n);
                assert(has_name(olds, n));
            }
            if has_name(olds, n) {
                let a = choose|a: int| 0 <= a < olds.len() && (#[trigger] olds[a]).name == n;
                assert(a != i);
                assert(news[a].name == n);
                assert(has_name(news, n));
            }
        }
    }
    assert forall|n: Seq<char>| lhs.contains_key(n) implies lhs[n] == rhs[n] by {
        let a = idx_of(news, n);
        assert(0 <= a < news.len() && news[a].name == n);
        if n == tv.name {
            assert(news[i].name == n);
            assert(a == i);
            assert(lhs[n] == tv);
        } else {
            assert(a != i);
            assert(olds[a].name == n);
            let b = idx_of(olds, n);
            assert(0 <= b < olds.len() && olds[b].name == n);
            assert(b != i);
            assert(a == b);
            assert(lhs[n] == news[a] && rhs[n] == olds[b]);
        }
    }
    assert(lhs =~= rhs);
}

/// Filtering out one name removes exactly that binding from the map.
proof fn lemma_delete_map(olds: Seq<TaskView>, news: Seq<TaskView>, name: Seq<char>)
    requires
        names_unique(olds),
        news == olds.filter(keep_pred(name)),
    ensures
        names_unique(news),
        map_of(news) == map_of(olds).remove(name),
        !has_name(news, name),
    decreases olds.len(),
{
    reveal(Seq::filter);
    if olds.len() == 0 {
        assert(news =~= Seq::<TaskView>::empty());
        assert(map_of(news) =~= map_of(olds).remove(name));
    } else {
        let last = olds.last();
        let front = olds.drop_last();
        let fnews = front.filter(keep_pred(name));
        lemma_delete_map(front, fnews, name);
        assert(news == if keep_pred(name)(last) {
            fnews.push(last)
        } else {
            fnews
        });
        // Every element of `news` comes from `olds`, and `front`'s bindings
        // carry over; prove the two maps equal pointwise.
        assert forall|n: Seq<char>| has_name(news, n) implies has_name(olds, n) && n != name by {
            let a = choose|a: int| 0 <= a < news.len() && (#[trigger] news[a]).name == n;
            if a < fnews.len() {
                assert(news[a] == fnews[a]);
                assert(has_name(fnews, n));
                assert(map_of(fnews).contains_key(n));
                assert(map_of(front).remove(name).contains_key(n));
                assert(map_of(front).contains_key(n));
                assert(has_name(front, n));
                let c = choose|c: int| 0 <= c < front.len() && (#[trigger] front[c]).name == n;
                assert(olds[c].name == n);
                assert(n != name);
            } else {
                assert(news[a] == last);
                assert(olds[olds.len() - 1].name == n);
                assert(n != name);
            }
        }
        assert forall|n: Seq<char>| has_name(olds, n) && n != name implies has_name(news, n) by {
            let a = choose|a: int| 0 <= a < olds.len() && (#[trigger] olds[a]).name == n;
            if a == olds.len() - 1 {
                assert(keep_pred(name)(last));
                assert(news[news.len() - 1].name == n);
            } else {
                assert(front[a].name == n);
                assert(has_name(front, n));
                assert(map_of(front).contains_key(n));
                assert(map_of(front).remove(name).contains_key(n));
                assert(map_of(fnews).contains_key(n));
                assert(has_name(fnews, n));
                let b = choose|b: int| 0 <= b < fnews.len() && (#[trigger] fnews[b]).name == n;
                assert(news[b].name == n);
            }
        }
        assert(names_unique(news)) by {
            if keep_pred(name)(last) {
                assert forall|x: int, y: int| 0 <= x < y < news.len() implies (
                #[trigger] news[x]).name != (#[trigger] news[y]).name by {
                    if y == news.len() - 1 {
                        assert(news[y] == last);
                        assert(news[x] == fnews[x]);
                        assert(has_name(fnews, news[x].name));
                        // fnews names all come from front, and last's name is
                        // not among front's.
                        assert(map_of(fnews).contains_key(news[x].name));
                        assert(map_of(front).remove(name).contains_key(news[x].name));
                        assert(map_of(front).contains_key(news[x].name));
                        assert(has_name(front, news[x].name));
                        let d = choose|d: int|
                            0 <= d < front.len() && (#[trigger] front[d]).name == news[x].name;
                        assert(olds[d].name == news[x].name);
                        assert(olds[d].name != last.name);
                    }
                }
            }
        }
        assert forall|n: Seq<char>| has_name(news, n) implies map_of(news)[n] == map_of(
            olds,
        ).remove(name)[n] by {
            let a = idx_of(news, n);
            assert(0 <= a < news.len() && news[a].name == n);
            let b = idx_of(olds, n);
            assert(has_name(olds, n));
            assert(0 <= b < olds.len() && olds[b].name == n);
            // Both name-unique sequences hold one task named `n`; the element
            // of `news` is an element of `olds`, so the two agree.
            if a < fnews.len() {
                assert(news[a] == fnews[a]);
                assert(has_name(fnews, n));
                assert(map_of(fnews).contains_key(n));
                assert(map_of(front).remove(name).contains_key(n));
                assert(map_of(front).contains_key(n));
                assert(has_name(front, n));
                assert(map_of(fnews)[n] == map_of(front).remove(name)[n]);
                let c = idx_of(fnews, n);
                assert(fnews[c].name == n);
                assert(c == a);
                let d = idx_of(front, n);
                assert(0 <= d < front.len() && front[d].name == n);
                assert(olds[d].name == n);
                assert(d == b);
                assert(map_of(fnews)[n] == fnews[c] && map_of(front)[n] == front[d]);
                assert(news[a] == fnews[a]);
                assert(map_of(news)[n] == news[a]);
                assert(news[a] == olds[b]);
            } else {
                assert(news[a] == last);
                assert(olds[olds.len() - 1].name == n);
                assert(b == olds.len() - 1);
                assert(map_of(news)[n] == news[a]);
                assert(news[a] == olds[b]);
            }
            assert(map_of(olds)[n] == olds[b]);
        }
        assert(map_of(news) =~= map_of(olds).remove(name));
        assert(!has_name(news, name));
    }
}

} // verus!
