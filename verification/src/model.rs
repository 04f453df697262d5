use vstd::prelude::*;

use crate::config::{map_of_pairs, CategoryConfig, CategoryConfigView, TaskConfigView, category_configs_view, task_configs_view};
use crate::keys::{spec_state_key, state_key};
use crate::strmap::{StrMap, distinct_keys};

verus! {

/// The number of `true` values in `s`.
pub open spec fn count_true(s: Seq<bool>) -> nat
    decreases s.len(),
{
    if s.len() == 0 {
        0
    } else {
        count_true(s.drop_last()) + if s.last() { 1nat } else { 0nat }
    }
}

/// At most every box of a list is ticked.
pub proof fn lemma_count_true_le_len(s: Seq<bool>)
    ensures
        count_true(s) <= s.len(),
    decreases s.len(),
{
    if s.len() > 0 {
        lemma_count_true_le_len(s.drop_last());
    }
}

/// `n` boxes, none ticked.
pub open spec fn unticked(n: nat) -> Seq<bool> {
    Seq::new(n, |i: int| false)
}

/// No box of a list of unticked boxes is ticked.
pub proof fn lemma_count_true_unticked(n: nat)
    ensures
        count_true(unticked(n)) == 0,
    decreases n,
{
    if n > 0 {
        lemma_count_true_unticked((n - 1) as nat);
        assert(unticked(n).drop_last() =~= unticked((n - 1) as nat));
    }
}

/// A task of the current week: its boxes, ticked or not.
pub struct Task {
    pub name: String,
    pub occurrences: Vec<bool>,
    pub count_in_progress: bool,
    pub weekday_only: bool,
}

pub struct TaskView {
    pub name: Seq<char>,
    pub occurrences: Seq<bool>,
    pub count_in_progress: bool,
    pub weekday_only: bool,
}

impl View for Task {
    type V = TaskView;

    open spec fn view(&self) -> TaskView {
        TaskView {
            name: self.name@,
            occurrences: self.occurrences@,
            count_in_progress: self.count_in_progress,
            weekday_only: self.weekday_only,
        }
    }
}

impl Task {
    /// The number of boxes of the task.
    pub fn total(&self) -> (n: usize)
        ensures
            n == self.occurrences@.len(),
    {
        self.occurrences.len()
    }

    /// The number of ticked boxes of the task.
    pub fn done(&self) -> (n: usize)
        ensures
            n == count_true(self.occurrences@),
            n <= self.occurrences@.len(),
    {
        let len = self.occurrences.len();
        let mut n: usize = 0;
        let mut i: usize = 0;
        while i < len
            invariant
                len == self.occurrences@.len(),
                i <= len,
                n == count_true(self.occurrences@.take(i as int)),
                n <= i,
            decreases len - i,
        {
            assert(self.occurrences@.take(i + 1).drop_last() =~= self.occurrences@.take(i as int));
            if self.occurrences[i] {
                n += 1;
            }
            i += 1;
        }
        assert(self.occurrences@.take(len as int) =~= self.occurrences@);
        n
    }
}

/// A category of the current week.
pub struct Category {
    pub name: String,
    pub icon: String,
    pub tasks: Vec<Task>,
}

pub struct CategoryView {
    pub name: Seq<char>,
    pub icon: Seq<char>,
    pub tasks: Seq<TaskView>,
}

pub open spec fn tasks_view(tasks: Seq<Task>) -> Seq<TaskView> {
    tasks.map_values(|t: Task| t@)
}

pub open spec fn categories_view(cats: Seq<Category>) -> Seq<CategoryView> {
    cats.map_values(|c: Category| c@)
}

impl View for Category {
    type V = CategoryView;

    open spec fn view(&self) -> CategoryView {
        CategoryView { name: self.name@, icon: self.icon@, tasks: tasks_view(self.tasks@) }
    }
}

/// The answers of the weekly questionnaire: which asked-about tasks are
/// included this week, and how many boxes the variable ones get. Both are
/// keyed by state key.
pub struct WeekChoices {
    pub inclusion: StrMap<bool>,
    pub occurrences: StrMap<u32>,
}

pub struct WeekChoicesView {
    pub inclusion: Map<Seq<char>, bool>,
    pub occurrences: Map<Seq<char>, u32>,
}

impl View for WeekChoices {
    type V = WeekChoicesView;

    open spec fn view(&self) -> WeekChoicesView {
        WeekChoicesView { inclusion: self.inclusion@, occurrences: self.occurrences@ }
    }
}

impl WeekChoices {
    /// No answer at all.
    pub fn new() -> (c: Self)
        ensures
            c@.inclusion == Map::<Seq<char>, bool>::empty(),
            c@.occurrences == Map::<Seq<char>, u32>::empty(),
    {
        WeekChoices { inclusion: StrMap::new(), occurrences: StrMap::new() }
    }

    /// A copy of the answers.
    pub fn copy(&self) -> (c: Self)
        ensures
            c@ == self@,
    {
        WeekChoices { inclusion: self.inclusion.copy(), occurrences: self.occurrences.copy() }
    }
}

pub open spec fn choices_view(ch: Option<&WeekChoices>) -> Option<WeekChoicesView> {
    match ch {
        Some(c) => Some(c@),
        None => None,
    }
}

/// `n`, or 1 when `n` is 0.
pub open spec fn at_least_one(n: u32) -> u32 {
    if n >= 1 {
        n
    } else {
        1
    }
}

/// A fresh task with `n` unticked boxes, from its configuration.
pub open spec fn fresh_task(t: TaskConfigView, n: u32) -> TaskView {
    TaskView {
        name: t.name,
        occurrences: unticked(n as nat),
        count_in_progress: t.count_in_progress,
        weekday_only: t.weekday_only,
    }
}

/// Whether an asked-about task is included this week: the answer if there
/// is one, else included.
pub open spec fn week_includes(ch: Option<WeekChoicesView>, key: Seq<char>) -> bool {
    match ch {
        Some(c) => if c.inclusion.contains_key(key) {
            c.inclusion[key]
        } else {
            true
        },
        None => true,
    }
}

/// The number of boxes of a variable task this week: the answer if there is
/// one, else the configured number (at least 1).
pub open spec fn chosen_occurrences(ch: Option<WeekChoicesView>, key: Seq<char>, t: TaskConfigView) -> u32 {
    match ch {
        Some(c) => if c.occurrences.contains_key(key) {
            c.occurrences[key]
        } else {
            at_least_one(t.occurrences)
        },
        None => at_least_one(t.occurrences),
    }
}

/// The task that a configured task becomes this week, or `None` when this
/// week leaves it out.
pub open spec fn materialized_task(cat: Seq<char>, t: TaskConfigView, ch: Option<WeekChoicesView>) -> Option<TaskView> {
    let key = spec_state_key(cat, t.name);
    if t.ask_include {
        if week_includes(ch, key) {
            Some(fresh_task(t, at_least_one(t.occurrences)))
        } else {
            None
        }
    } else if t.ask_occurrences {
        let n = chosen_occurrences(ch, key, t);
        if n == 0 {
            None
        } else {
            Some(fresh_task(t, n))
        }
    } else {
        Some(fresh_task(t, at_least_one(t.occurrences)))
    }
}

pub open spec fn option_seq<A>(o: Option<A>) -> Seq<A> {
    match o {
        Some(a) => seq![a],
        None => Seq::empty(),
    }
}

/// The tasks this week of a category's configured tasks, in order.
pub open spec fn materialized_tasks(cat: Seq<char>, ts: Seq<TaskConfigView>, ch: Option<WeekChoicesView>) -> Seq<TaskView>
    decreases ts.len(),
{
    if ts.len() == 0 {
        Seq::empty()
    } else {
        materialized_tasks(cat, ts.drop_last(), ch) + option_seq(materialized_task(cat, ts.last(), ch))
    }
}

/// The category this week of a configured category.
pub open spec fn materialized_category(c: CategoryConfigView, ch: Option<WeekChoicesView>) -> CategoryView {
    CategoryView { name: c.name, icon: c.icon, tasks: materialized_tasks(c.name, c.tasks, ch) }
}

/// The categories of the week, built from the configuration and this week's answers.
pub open spec fn materialized_categories(raw: Seq<CategoryConfigView>, ch: Option<WeekChoicesView>) -> Seq<CategoryView> {
    raw.map_values(|c: CategoryConfigView| materialized_category(c, ch))
}

/// A list of `n` unticked boxes.
fn unticked_boxes(n: u32) -> (v: Vec<bool>)
    ensures
        v@ == unticked(n as nat),
{
    let v = vec![false; n as usize];
    assert(v@ =~= unticked(n as nat));
    v
}

/// Builds the week's categories from the configuration. A task asked about
/// for inclusion gets its configured number of boxes (at least 1), or is
/// left out when this week's answer says so; a task with a variable number of boxes gets this week's answer, or
/// its configured number, and is left out when that is 0; any other task
/// gets its configured number of boxes, at least 1. Every box starts
/// unticked.
pub fn materialize_categories(raw: &Vec<CategoryConfig>, choices: Option<&WeekChoices>) -> (cats: Vec<Category>)
    ensures
        categories_view(cats@) == materialized_categories(category_configs_view(raw@), choices_view(choices)),
{
    let ghost rv = category_configs_view(raw@);
    let ghost ch = choices_view(choices);
    let mut cats: Vec<Category> = Vec::new();
    let n = raw.len();
    for i in 0..n
        invariant
            n == raw@.len(),
            rv == category_configs_view(raw@),
            ch == choices_view(choices),
            cats@.len() == i,
            categories_view(cats@) == materialized_categories(rv, ch).take(i as int),
    {
        let c = &raw[i];
        let ghost ctv = task_configs_view(c.tasks@);
        let mut tasks: Vec<Task> = Vec::new();
        let m = c.tasks.len();
        for j in 0..m
            invariant
                n == raw@.len(),
                i < n,
                c == raw@[i as int],
                ch == choices_view(choices),
                m == c.tasks@.len(),
                ctv == task_configs_view(c.tasks@),
                tasks_view(tasks@) == materialized_tasks(c.name@, ctv.take(j as int), ch),
        {
            let t = &c.tasks[j];
            let ghost before = tasks@;
            assert(ctv.take(j + 1).drop_last() =~= ctv.take(j as int));
            assert(ctv.take(j + 1).last() == t@);
            let key = state_key(c.name.as_str(), t.name.as_str());
            if t.ask_include {
                let inc = match choices {
                    Some(chs) => match chs.inclusion.get(&key) {
                        Some(b) => *b,
                        None => true,
                    },
                    None => true,
                };
                if inc {
                    let k = if t.occurrences >= 1 { t.occurrences } else { 1 };
                    tasks.push(Task {
                        name: t.name.clone(),
                        occurrences: unticked_boxes(k),
                        count_in_progress: t.count_in_progress,
                        weekday_only: t.weekday_only,
                    });
                }
            } else if t.ask_occurrences {
                let k = match choices {
                    Some(chs) => match chs.occurrences.get(&key) {
                        Some(v) => *v,
                        None => if t.occurrences >= 1 { t.occurrences } else { 1 },
                    },
                    None => if t.occurrences >= 1 { t.occurrences } else { 1 },
                };
                if k != 0 {
                    tasks.push(Task {
                        name: t.name.clone(),
                        occurrences: unticked_boxes(k),
                        count_in_progress: t.count_in_progress,
                        weekday_only: t.weekday_only,
                    });
                }
            } else {
                let k = if t.occurrences >= 1 { t.occurrences } else { 1 };
                tasks.push(Task {
                    name: t.name.clone(),
                    occurrences: unticked_boxes(k),
                    count_in_progress: t.count_in_progress,
                    weekday_only: t.weekday_only,
                });
            }
            assert(tasks_view(tasks@) =~= materialized_tasks(c.name@, ctv.take(j + 1), ch));
        }
        assert(ctv.take(m as int) =~= ctv);
        let ghost prev = cats@;
        cats.push(Category { name: c.name.clone(), icon: c.icon.clone(), tasks });
        assert forall|k: int| 0 <= k < i + 1 implies #[trigger] categories_view(cats@)[k]
            == materialized_categories(rv, ch)[k] by {
            if k < i {
                assert(cats@[k] == prev[k]);
                assert(categories_view(prev)[k] == materialized_categories(rv, ch).take(i as int)[k]);
            }
        }
        assert(categories_view(cats@) =~= materialized_categories(rv, ch).take(i + 1));
    }
    assert(materialized_categories(rv, ch).take(n as int) =~= materialized_categories(rv, ch));
    cats
}


/// A copy of a list of boxes.
fn copy_boxes(v: &Vec<bool>) -> (r: Vec<bool>)
    ensures
        r@ == v@,
{
    let mut r: Vec<bool> = Vec::new();
    let n = v.len();
    let mut i: usize = 0;
    while i < n
        invariant
            n == v@.len(),
            i <= n,
            r@ == v@.take(i as int),
        decreases n - i,
    {
        r.push(v[i]);
        i += 1;
        assert(r@ =~= v@.take(i as int));
    }
    assert(v@.take(n as int) =~= v@);
    r
}

/// The boxes of a map of saved states, each taken by its values.
pub open spec fn boxes_map_view(m: Map<Seq<char>, Vec<bool>>) -> Map<Seq<char>, Seq<bool>> {
    m.map_values(|v: Vec<bool>| v@)
}

pub proof fn lemma_boxes_map_view_insert(m: Map<Seq<char>, Vec<bool>>, k: Seq<char>, v: Vec<bool>)
    ensures
        boxes_map_view(m.insert(k, v)) == boxes_map_view(m).insert(k, v@),
{
    assert(boxes_map_view(m.insert(k, v)) =~= boxes_map_view(m).insert(k, v@));
}

/// The boxes a task gets back from a saved state: position by position the
/// saved value, unticked past the end of the saved list. The task keeps its
/// number of boxes.
pub open spec fn restored_boxes(current: Seq<bool>, saved: Seq<bool>) -> Seq<bool> {
    Seq::new(current.len(), |i: int| if i < saved.len() { saved[i] } else { false })
}

/// A task after restoring the saved state stored under its key, if there is one.
pub open spec fn restored_task(cat: Seq<char>, t: TaskView, saved: Map<Seq<char>, Seq<bool>>) -> TaskView {
    let key = spec_state_key(cat, t.name);
    if saved.contains_key(key) {
        TaskView {
            name: t.name,
            occurrences: restored_boxes(t.occurrences, saved[key]),
            count_in_progress: t.count_in_progress,
            weekday_only: t.weekday_only,
        }
    } else {
        t
    }
}

pub open spec fn restored_tasks(cat: Seq<char>, ts: Seq<TaskView>, saved: Map<Seq<char>, Seq<bool>>) -> Seq<TaskView> {
    ts.map_values(|t: TaskView| restored_task(cat, t, saved))
}

pub open spec fn restored_category(c: CategoryView, saved: Map<Seq<char>, Seq<bool>>) -> CategoryView {
    CategoryView { name: c.name, icon: c.icon, tasks: restored_tasks(c.name, c.tasks, saved) }
}

/// The categories after every task got back its saved state.
pub open spec fn restored_categories(cats: Seq<CategoryView>, saved: Map<Seq<char>, Seq<bool>>) -> Seq<CategoryView> {
    cats.map_values(|c: CategoryView| restored_category(c, saved))
}

fn restore_task(cat: &String, t: &Task, saved: &StrMap<Vec<bool>>) -> (r: Task)
    ensures
        r@ == restored_task(cat@, t@, boxes_map_view(saved@)),
{
    let key = state_key(cat.as_str(), t.name.as_str());
    match saved.get(&key) {
        Some(sv) => {
            let n = t.occurrences.len();
            let mut occ: Vec<bool> = Vec::new();
            let mut i: usize = 0;
            while i < n
                invariant
                    n == t.occurrences@.len(),
                    i <= n,
                    occ@ == restored_boxes(t.occurrences@, sv@).take(i as int),
                decreases n - i,
            {
                let b = if i < sv.len() { sv[i] } else { false };
                occ.push(b);
                i += 1;
                assert(occ@ =~= restored_boxes(t.occurrences@, sv@).take(i as int));
            }
            assert(restored_boxes(t.occurrences@, sv@).take(n as int) =~= restored_boxes(t.occurrences@, sv@));
            Task {
                name: t.name.clone(),
                occurrences: occ,
                count_in_progress: t.count_in_progress,
                weekday_only: t.weekday_only,
            }
        },
        None => Task {
            name: t.name.clone(),
            occurrences: copy_boxes(&t.occurrences),
            count_in_progress: t.count_in_progress,
            weekday_only: t.weekday_only,
        },
    }
}

/// Gives every task back the boxes saved under its key: position by
/// position the saved value, unticked where the saved list is shorter.
/// A task keeps its number of boxes; one with nothing saved keeps its boxes.
pub fn restore_occurrences(cats: &Vec<Category>, saved: &StrMap<Vec<bool>>) -> (r: Vec<Category>)
    ensures
        categories_view(r@) == restored_categories(categories_view(cats@), boxes_map_view(saved@)),
{
    let ghost sv = boxes_map_view(saved@);
    let ghost target = restored_categories(categories_view(cats@), sv);
    let mut out: Vec<Category> = Vec::new();
    let n = cats.len();
    let mut i: usize = 0;
    while i < n
        invariant
            n == cats@.len(),
            i <= n,
            sv == boxes_map_view(saved@),
            target == restored_categories(categories_view(cats@), sv),
            out@.len() == i,
            forall|k: int| 0 <= k < i ==> #[trigger] out@[k]@ == target[k],
        decreases n - i,
    {
        let c = &cats[i];
        let ghost ttarget = restored_tasks(c.name@, tasks_view(c.tasks@), sv);
        let mut tasks: Vec<Task> = Vec::new();
        let m = c.tasks.len();
        let mut j: usize = 0;
        while j < m
            invariant
                m == c.tasks@.len(),
                j <= m,
                sv == boxes_map_view(saved@),
                ttarget == restored_tasks(c.name@, tasks_view(c.tasks@), sv),
                tasks@.len() == j,
                forall|k: int| 0 <= k < j ==> #[trigger] tasks@[k]@ == ttarget[k],
            decreases m - j,
        {
            let t = restore_task(&c.name, &c.tasks[j], saved);
            tasks.push(t);
            j += 1;
        }
        assert(tasks_view(tasks@) =~= ttarget);
        out.push(Category { name: c.name.clone(), icon: c.icon.clone(), tasks });
        i += 1;
    }
    assert(categories_view(out@) =~= target);
    out
}

/// The pairs (state key, boxes) of one category's tasks, in order.
pub open spec fn category_box_pairs(c: CategoryView) -> Seq<(Seq<char>, Seq<bool>)> {
    c.tasks.map_values(|t: TaskView| (spec_state_key(c.name, t.name), t.occurrences))
}

/// The pairs (state key, boxes) of all tasks, category after category.
pub open spec fn box_pairs(cats: Seq<CategoryView>) -> Seq<(Seq<char>, Seq<bool>)>
    decreases cats.len(),
{
    if cats.len() == 0 {
        Seq::empty()
    } else {
        box_pairs(cats.drop_last()) + category_box_pairs(cats.last())
    }
}

/// Every task's boxes under its state key (the last task wins when two tasks
/// share a key).
pub fn occurrence_state(cats: &Vec<Category>) -> (m: StrMap<Vec<bool>>)
    ensures
        boxes_map_view(m@) == map_of_pairs(box_pairs(categories_view(cats@))),
{
    let ghost cv = categories_view(cats@);
    let mut m: StrMap<Vec<bool>> = StrMap::new();
    proof {
        assert(boxes_map_view(m@) =~= Map::<Seq<char>, Seq<bool>>::empty());
        assert(cv.take(0) =~= Seq::<CategoryView>::empty());
    }
    let n = cats.len();
    let mut i: usize = 0;
    while i < n
        invariant
            n == cats@.len(),
            i <= n,
            cv == categories_view(cats@),
            boxes_map_view(m@) == map_of_pairs(box_pairs(cv.take(i as int))),
        decreases n - i,
    {
        let c = &cats[i];
        let ghost before = box_pairs(cv.take(i as int));
        let ghost pairs = category_box_pairs(cv[i as int]);
        let k = c.tasks.len();
        let mut j: usize = 0;
        assert(before + pairs.take(0) =~= before);
        while j < k
            invariant
                k == c.tasks@.len(),
                j <= k,
                c@ == cv[i as int],
                pairs == category_box_pairs(cv[i as int]),
                pairs.len() == k,
                boxes_map_view(m@) == map_of_pairs(before + pairs.take(j as int)),
            decreases k - j,
        {
            let t = &c.tasks[j];
            let key = state_key(c.name.as_str(), t.name.as_str());
            let boxes = copy_boxes(&t.occurrences);
            let ghost old_m = m@;
            let ghost bv = boxes@;
            m.insert(key, boxes);
            proof {
                lemma_boxes_map_view_insert(old_m, key@, boxes);
                assert((before + pairs.take(j + 1)).drop_last() =~= before + pairs.take(j as int));
                assert(pairs[j as int] == (key@, bv));
            }
            j += 1;
        }
        assert(cv.take(i + 1).drop_last() =~= cv.take(i as int));
        assert(pairs.take(k as int) =~= pairs);
        i += 1;
    }
    assert(cv.take(n as int) =~= cv);
    m
}


/// Whether a task's boxes are counted: counted tasks only, and with
/// `weekday` set only those tracked from Monday to Friday.
pub open spec fn task_counted(t: TaskView, weekday: bool) -> bool {
    t.count_in_progress && (!weekday || t.weekday_only)
}

/// The counted boxes of a list of tasks.
pub open spec fn tasks_boxes(ts: Seq<TaskView>, weekday: bool) -> nat
    decreases ts.len(),
{
    if ts.len() == 0 {
        0
    } else {
        tasks_boxes(ts.drop_last(), weekday) + if task_counted(ts.last(), weekday) {
            ts.last().occurrences.len()
        } else {
            0
        }
    }
}

/// The ticked counted boxes of a list of tasks.
pub open spec fn tasks_ticks(ts: Seq<TaskView>, weekday: bool) -> nat
    decreases ts.len(),
{
    if ts.len() == 0 {
        0
    } else {
        tasks_ticks(ts.drop_last(), weekday) + if task_counted(ts.last(), weekday) {
            count_true(ts.last().occurrences)
        } else {
            0
        }
    }
}

/// All boxes of a list of tasks, counted or not.
pub open spec fn tasks_all_boxes(ts: Seq<TaskView>) -> nat
    decreases ts.len(),
{
    if ts.len() == 0 {
        0
    } else {
        tasks_all_boxes(ts.drop_last()) + ts.last().occurrences.len()
    }
}

/// The counted boxes of a list of categories.
pub open spec fn week_boxes(cs: Seq<CategoryView>, weekday: bool) -> nat
    decreases cs.len(),
{
    if cs.len() == 0 {
        0
    } else {
        week_boxes(cs.drop_last(), weekday) + tasks_boxes(cs.last().tasks, weekday)
    }
}

/// The ticked counted boxes of a list of categories.
pub open spec fn week_ticks(cs: Seq<CategoryView>, weekday: bool) -> nat
    decreases cs.len(),
{
    if cs.len() == 0 {
        0
    } else {
        week_ticks(cs.drop_last(), weekday) + tasks_ticks(cs.last().tasks, weekday)
    }
}

/// All boxes of a list of categories.
pub open spec fn week_all_boxes(cs: Seq<CategoryView>) -> nat
    decreases cs.len(),
{
    if cs.len() == 0 {
        0
    } else {
        week_all_boxes(cs.drop_last()) + tasks_all_boxes(cs.last().tasks)
    }
}

/// Counted ticks never exceed counted boxes, which never exceed all boxes.
pub proof fn lemma_tasks_counts(ts: Seq<TaskView>, weekday: bool)
    ensures
        tasks_ticks(ts, weekday) <= tasks_boxes(ts, weekday),
        tasks_boxes(ts, weekday) <= tasks_all_boxes(ts),
    decreases ts.len(),
{
    if ts.len() > 0 {
        lemma_tasks_counts(ts.drop_last(), weekday);
        lemma_count_true_le_len(ts.last().occurrences);
    }
}

/// For a whole week: ticks never exceed boxes, and the counted boxes are at
/// most all boxes.
pub proof fn lemma_week_counts(cs: Seq<CategoryView>, weekday: bool)
    ensures
        week_ticks(cs, weekday) <= week_boxes(cs, weekday),
        week_boxes(cs, weekday) <= week_all_boxes(cs),
    decreases cs.len(),
{
    if cs.len() > 0 {
        lemma_week_counts(cs.drop_last(), weekday);
        lemma_tasks_counts(cs.last().tasks, weekday);
    }
}

/// The boxes of the tasks of a prefix of a week are at most those of the week.
pub(crate) proof fn lemma_week_all_boxes_prefix(cs: Seq<CategoryView>, i: int)
    requires
        0 <= i <= cs.len(),
    ensures
        week_all_boxes(cs.take(i)) <= week_all_boxes(cs),
    decreases cs.len(),
{
    if i < cs.len() {
        assert(cs.drop_last().take(i) =~= cs.take(i));
        lemma_week_all_boxes_prefix(cs.drop_last(), i);
    } else {
        assert(cs.take(i) =~= cs);
    }
}

proof fn lemma_tasks_all_boxes_prefix(ts: Seq<TaskView>, i: int)
    requires
        0 <= i <= ts.len(),
    ensures
        tasks_all_boxes(ts.take(i)) <= tasks_all_boxes(ts),
    decreases ts.len(),
{
    if i < ts.len() {
        assert(ts.drop_last().take(i) =~= ts.take(i));
        lemma_tasks_all_boxes_prefix(ts.drop_last(), i);
    } else {
        assert(ts.take(i) =~= ts);
    }
}

/// The number of ticked boxes and the number of boxes of a category's
/// counted tasks (with `weekday`, only those tracked Monday to Friday).
pub fn category_progress(c: &Category, weekday: bool) -> (r: (usize, usize))
    requires
        tasks_all_boxes(c@.tasks) <= usize::MAX,
    ensures
        r.0 == tasks_ticks(c@.tasks, weekday),
        r.1 == tasks_boxes(c@.tasks, weekday),
        r.0 <= r.1,
{
    let ghost tv = c@.tasks;
    let n = c.tasks.len();
    let mut done: usize = 0;
    let mut total: usize = 0;
    let mut i: usize = 0;
    while i < n
        invariant
            n == c.tasks@.len(),
            tv == c@.tasks,
            tasks_all_boxes(tv) <= usize::MAX,
            i <= n,
            done == tasks_ticks(tv.take(i as int), weekday),
            total == tasks_boxes(tv.take(i as int), weekday),
        decreases n - i,
    {
        let t = &c.tasks[i];
        proof {
            assert(tv.take(i + 1).drop_last() =~= tv.take(i as int));
            assert(tv.take(i + 1).last() == t@);
            lemma_tasks_counts(tv.take(i + 1), weekday);
            lemma_tasks_all_boxes_prefix(tv, i + 1);
        }
        if t.count_in_progress && (!weekday || t.weekday_only) {
            total = total + t.total();
            done = done + t.done();
        }
        i += 1;
    }
    proof {
        assert(tv.take(n as int) =~= tv);
        lemma_tasks_counts(tv, weekday);
    }
    (done, total)
}

/// The number of ticked boxes and the number of boxes of the week's counted
/// tasks (with `weekday`, only those tracked Monday to Friday).
pub fn week_progress(cats: &Vec<Category>, weekday: bool) -> (r: (usize, usize))
    requires
        week_all_boxes(categories_view(cats@)) <= usize::MAX,
    ensures
        r.0 == week_ticks(categories_view(cats@), weekday),
        r.1 == week_boxes(categories_view(cats@), weekday),
        r.0 <= r.1,
{
    let ghost cv = categories_view(cats@);
    let n = cats.len();
    let mut done: usize = 0;
    let mut total: usize = 0;
    let mut i: usize = 0;
    while i < n
        invariant
            n == cats@.len(),
            cv == categories_view(cats@),
            week_all_boxes(cv) <= usize::MAX,
            i <= n,
            done == week_ticks(cv.take(i as int), weekday),
            total == week_boxes(cv.take(i as int), weekday),
        decreases n - i,
    {
        let c = &cats[i];
        proof {
            assert(cv.take(i + 1).drop_last() =~= cv.take(i as int));
            assert(cv.take(i + 1).last() == c@);
            lemma_week_counts(cv.take(i + 1), weekday);
            lemma_week_all_boxes_prefix(cv, i + 1);
        }
        let (d, t) = category_progress(c, weekday);
        total = total + t;
        done = done + d;
        i += 1;
    }
    proof {
        assert(cv.take(n as int) =~= cv);
        lemma_week_counts(cv, weekday);
    }
    (done, total)
}

/// The number of all boxes of the week, when it fits in a `usize`.
pub fn box_count(cats: &Vec<Category>) -> (r: Option<usize>)
    ensures
        match r {
            Some(n) => n == week_all_boxes(categories_view(cats@)),
            None => week_all_boxes(categories_view(cats@)) > usize::MAX,
        },
{
    let ghost cv = categories_view(cats@);
    let n = cats.len();
    let mut total: usize = 0;
    let mut i: usize = 0;
    while i < n
        invariant
            n == cats@.len(),
            cv == categories_view(cats@),
            i <= n,
            total == week_all_boxes(cv.take(i as int)),
        decreases n - i,
    {
        let c = &cats[i];
        assert(cv.take(i + 1).drop_last() =~= cv.take(i as int));
        assert(cv.take(i + 1).last() == c@);
        let ghost tv = c@.tasks;
        let m = c.tasks.len();
        let mut j: usize = 0;
        let mut sub: usize = 0;
        while j < m
            invariant
                m == c.tasks@.len(),
                tv == c@.tasks,
                j <= m,
                total + sub <= usize::MAX,
                sub == tasks_all_boxes(tv.take(j as int)),
                total == week_all_boxes(cv.take(i as int)),
                i < n,
                n == cats@.len(),
                cv == categories_view(cats@),
                c == cats@[i as int],
            decreases m - j,
        {
            assert(tv.take(j + 1).drop_last() =~= tv.take(j as int));
            assert(tv.take(j + 1).last() == c.tasks@[j as int]@);
            let len = c.tasks[j].occurrences.len();
            if len > usize::MAX - total - sub {
                proof {
                    lemma_tasks_all_boxes_prefix(tv, j + 1);
                    lemma_week_all_boxes_prefix(cv, i + 1);
                    assert(tasks_all_boxes(tv.take(j + 1)) == sub + len);
                    assert(cv.take(i + 1).drop_last() =~= cv.take(i as int));
                    assert(cv.take(i + 1).last() == c@);
                    assert(week_all_boxes(cv.take(i + 1)) == total + tasks_all_boxes(tv));
                }
                return None;
            }
            sub = sub + len;
            j += 1;
        }
        assert(tv.take(m as int) =~= tv);
        total = total + sub;
        i += 1;
    }
    assert(cv.take(n as int) =~= cv);
    Some(total)
}


/// A task with all its boxes unticked.
pub open spec fn cleared_task(t: TaskView) -> TaskView {
    TaskView {
        name: t.name,
        occurrences: unticked(t.occurrences.len()),
        count_in_progress: t.count_in_progress,
        weekday_only: t.weekday_only,
    }
}

pub open spec fn cleared_category(c: CategoryView) -> CategoryView {
    CategoryView { name: c.name, icon: c.icon, tasks: c.tasks.map_values(|t: TaskView| cleared_task(t)) }
}

/// The categories with every box unticked.
pub open spec fn cleared_categories(cs: Seq<CategoryView>) -> Seq<CategoryView> {
    cs.map_values(|c: CategoryView| cleared_category(c))
}

/// The categories with every box unticked, tasks and numbers of boxes unchanged.
pub fn clear_boxes(cats: &Vec<Category>) -> (r: Vec<Category>)
    ensures
        categories_view(r@) == cleared_categories(categories_view(cats@)),
{
    let ghost target = cleared_categories(categories_view(cats@));
    let mut out: Vec<Category> = Vec::new();
    let n = cats.len();
    let mut i: usize = 0;
    while i < n
        invariant
            n == cats@.len(),
            i <= n,
            target == cleared_categories(categories_view(cats@)),
            out@.len() == i,
            forall|k: int| 0 <= k < i ==> #[trigger] out@[k]@ == target[k],
        decreases n - i,
    {
        let c = &cats[i];
        let ghost ttarget = c@.tasks.map_values(|t: TaskView| cleared_task(t));
        let mut tasks: Vec<Task> = Vec::new();
        let m = c.tasks.len();
        let mut j: usize = 0;
        while j < m
            invariant
                m == c.tasks@.len(),
                j <= m,
                ttarget == c@.tasks.map_values(|t: TaskView| cleared_task(t)),
                tasks@.len() == j,
                forall|k: int| 0 <= k < j ==> #[trigger] tasks@[k]@ == ttarget[k],
            decreases m - j,
        {
            let t = &c.tasks[j];
            let len = t.occurrences.len();
            let occ = vec![false; len];
            assert(occ@ =~= unticked(len as nat));
            tasks.push(Task {
                name: t.name.clone(),
                occurrences: occ,
                count_in_progress: t.count_in_progress,
                weekday_only: t.weekday_only,
            });
            j += 1;
        }
        assert(tasks_view(tasks@) =~= ttarget);
        out.push(Category { name: c.name.clone(), icon: c.icon.clone(), tasks });
        i += 1;
    }
    assert(categories_view(out@) =~= target);
    out
}

proof fn lemma_cleared_tasks_counts(ts: Seq<TaskView>, weekday: bool)
    ensures
        tasks_ticks(ts.map_values(|t: TaskView| cleared_task(t)), weekday) == 0,
        tasks_boxes(ts.map_values(|t: TaskView| cleared_task(t)), weekday) == tasks_boxes(ts, weekday),
        tasks_all_boxes(ts.map_values(|t: TaskView| cleared_task(t))) == tasks_all_boxes(ts),
    decreases ts.len(),
{
    if ts.len() > 0 {
        let c = ts.map_values(|t: TaskView| cleared_task(t));
        assert(c.drop_last() =~= ts.drop_last().map_values(|t: TaskView| cleared_task(t)));
        lemma_cleared_tasks_counts(ts.drop_last(), weekday);
        lemma_count_true_unticked(ts.last().occurrences.len());
    }
}

/// After clearing, no counted box is ticked, and the boxes are the same in
/// number (counted ones, and all of them).
pub proof fn lemma_cleared_counts(cs: Seq<CategoryView>, weekday: bool)
    ensures
        week_ticks(cleared_categories(cs), weekday) == 0,
        week_boxes(cleared_categories(cs), weekday) == week_boxes(cs, weekday),
        week_all_boxes(cleared_categories(cs)) == week_all_boxes(cs),
    decreases cs.len(),
{
    if cs.len() > 0 {
        assert(cleared_categories(cs).drop_last() =~= cleared_categories(cs.drop_last()));
        lemma_cleared_counts(cs.drop_last(), weekday);
        lemma_cleared_tasks_counts(cs.last().tasks, weekday);
    }
}


/// In a list of pairs with distinct keys, the map built from it holds each
/// pair.
pub proof fn lemma_map_of_pairs_at<V>(s: Seq<(Seq<char>, V)>, i: int)
    requires
        distinct_keys(s),
        0 <= i < s.len(),
    ensures
        map_of_pairs(s).contains_key(s[i].0),
        map_of_pairs(s)[s[i].0] == s[i].1,
    decreases s.len(),
{
    if i < s.len() - 1 {
        let d = s.drop_last();
        assert(distinct_keys(d)) by {
            assert forall|a: int, b: int|
                0 <= a < d.len() && 0 <= b < d.len() && a != b implies #[trigger] d[a].0
                != #[trigger] d[b].0 by {
                assert(d[a] == s[a] && d[b] == s[b]);
            }
        }
        assert(d[i] == s[i]);
        lemma_map_of_pairs_at(d, i);
        assert(s[s.len() - 1].0 != s[i].0);
    }
}

/// The pair of a task of the week is among the week's pairs.
proof fn lemma_box_pair_index(cs: Seq<CategoryView>, ci: int, ti: int)
    requires
        0 <= ci < cs.len(),
        0 <= ti < cs[ci].tasks.len(),
    ensures
        exists|j: int|
            0 <= j < box_pairs(cs).len() && #[trigger] box_pairs(cs)[j] == (
                spec_state_key(cs[ci].name, cs[ci].tasks[ti].name),
                cs[ci].tasks[ti].occurrences,
            ),
    decreases cs.len(),
{
    let d = cs.drop_last();
    if ci == cs.len() - 1 {
        let j = box_pairs(d).len() + ti;
        assert(box_pairs(cs)[j] == category_box_pairs(cs.last())[ti]);
    } else {
        assert(d[ci] == cs[ci]);
        lemma_box_pair_index(d, ci, ti);
        let j = choose|j: int|
            0 <= j < box_pairs(d).len() && #[trigger] box_pairs(d)[j] == (
                spec_state_key(d[ci].name, d[ci].tasks[ti].name),
                d[ci].tasks[ti].occurrences,
            );
        assert(box_pairs(cs)[j] == box_pairs(d)[j]);
    }
}

/// Whether no two tasks of the week share a state key.
pub open spec fn week_keys_distinct(cs: Seq<CategoryView>) -> bool {
    distinct_keys(box_pairs(cs))
}

/// Restoring the boxes saved from a week onto that week with its boxes
/// unticked (as it is rebuilt on reload) gives the week back, when no two
/// of its tasks share a key.
pub proof fn lemma_restore_saved_week(cs: Seq<CategoryView>)
    requires
        week_keys_distinct(cs),
    ensures
        restored_categories(cleared_categories(cs), map_of_pairs(box_pairs(cs))) == cs,
{
    let m = map_of_pairs(box_pairs(cs));
    let r = restored_categories(cleared_categories(cs), m);
    assert forall|ci: int| 0 <= ci < cs.len() implies #[trigger] r[ci] == cs[ci] by {
        let c = cs[ci];
        assert forall|ti: int| 0 <= ti < c.tasks.len() implies #[trigger] r[ci].tasks[ti] == c.tasks[ti] by {
            let t = c.tasks[ti];
            lemma_box_pair_index(cs, ci, ti);
            let j = choose|j: int|
                0 <= j < box_pairs(cs).len() && #[trigger] box_pairs(cs)[j] == (
                    spec_state_key(cs[ci].name, cs[ci].tasks[ti].name),
                    cs[ci].tasks[ti].occurrences,
                );
            lemma_map_of_pairs_at(box_pairs(cs), j);
            let key = spec_state_key(c.name, t.name);
            assert(m.contains_key(key) && m[key] == t.occurrences);
            assert(restored_boxes(unticked(t.occurrences.len()), t.occurrences) =~= t.occurrences);
        }
        assert(r[ci].tasks =~= c.tasks);
    }
    assert(r =~= cs);
}

/// Restoring saved boxes keeps every task's number of boxes.
pub proof fn lemma_restore_keeps_shape(cs: Seq<CategoryView>, saved: Map<Seq<char>, Seq<bool>>, ci: int, ti: int)
    requires
        0 <= ci < cs.len(),
        0 <= ti < cs[ci].tasks.len(),
    ensures
        restored_categories(cs, saved)[ci].tasks.len() == cs[ci].tasks.len(),
        restored_categories(cs, saved)[ci].tasks[ti].occurrences.len() == cs[ci].tasks[ti].occurrences.len(),
        restored_categories(cs, saved)[ci].tasks[ti].name == cs[ci].tasks[ti].name,
{
}

/// A freshly built week has no box ticked.
pub proof fn lemma_materialized_unticked(raw: Seq<CategoryConfigView>, ch: Option<WeekChoicesView>, weekday: bool)
    ensures
        week_ticks(materialized_categories(raw, ch), weekday) == 0,
    decreases raw.len(),
{
    if raw.len() > 0 {
        let m = materialized_categories(raw, ch);
        assert(m.drop_last() =~= materialized_categories(raw.drop_last(), ch));
        lemma_materialized_unticked(raw.drop_last(), ch, weekday);
        lemma_materialized_tasks_unticked(raw.last().name, raw.last().tasks, ch, weekday);
    }
}

proof fn lemma_materialized_tasks_unticked(
    cat: Seq<char>,
    ts: Seq<TaskConfigView>,
    ch: Option<WeekChoicesView>,
    weekday: bool,
)
    ensures
        tasks_ticks(materialized_tasks(cat, ts, ch), weekday) == 0,
    decreases ts.len(),
{
    if ts.len() > 0 {
        lemma_materialized_tasks_unticked(cat, ts.drop_last(), ch, weekday);
        let prefix = materialized_tasks(cat, ts.drop_last(), ch);
        let all = materialized_tasks(cat, ts, ch);
        match materialized_task(cat, ts.last(), ch) {
            Some(t) => {
                assert(all.drop_last() =~= prefix);
                lemma_count_true_unticked(t.occurrences.len());
                assert(t.occurrences =~= unticked(t.occurrences.len()));
            },
            None => {
                assert(all =~= prefix);
            },
        }
    }
}

/// Every configured task kept this week is among the category's tasks.
proof fn lemma_materialized_tasks_has(
    cat: Seq<char>,
    ts: Seq<TaskConfigView>,
    ch: Option<WeekChoicesView>,
    i: int,
)
    requires
        0 <= i < ts.len(),
        materialized_task(cat, ts[i], ch) is Some,
    ensures
        exists|j: int|
            0 <= j < materialized_tasks(cat, ts, ch).len() && #[trigger] materialized_tasks(cat, ts, ch)[j]
                == materialized_task(cat, ts[i], ch).unwrap(),
    decreases ts.len(),
{
    let d = ts.drop_last();
    let m = materialized_tasks(cat, ts, ch);
    let md = materialized_tasks(cat, d, ch);
    assert(m == md + option_seq(materialized_task(cat, ts.last(), ch)));
    if i == ts.len() - 1 {
        assert(m[md.len() as int] == materialized_task(cat, ts[i], ch).unwrap());
    } else {
        assert(d[i] == ts[i]);
        lemma_materialized_tasks_has(cat, d, ch, i);
        let j = choose|j: int| 0 <= j < md.len() && #[trigger] md[j] == materialized_task(cat, d[i], ch).unwrap();
        assert(m[j] == md[j]);
    }
}

/// A task asked about for its inclusion is part of the week built from the
/// configuration unless this week's answers say explicitly that it is left
/// out: with no answers, or no answer for it (a task just added), it is
/// there, with its configured number of boxes (at least 1), all unticked.
pub proof fn lemma_unanswered_inclusion_is_built(
    raw: Seq<CategoryConfigView>,
    ch: Option<WeekChoicesView>,
    ci: int,
    ti: int,
)
    requires
        0 <= ci < raw.len(),
        0 <= ti < raw[ci].tasks.len(),
        raw[ci].tasks[ti].ask_include,
        !(ch matches Some(c) && c.inclusion.contains_key(spec_state_key(raw[ci].name, raw[ci].tasks[ti].name))
            && !c.inclusion[spec_state_key(raw[ci].name, raw[ci].tasks[ti].name)]),
    ensures
        ({
            let t = raw[ci].tasks[ti];
            let tasks = materialized_categories(raw, ch)[ci].tasks;
            let n: nat = if t.occurrences >= 1 {
                t.occurrences as nat
            } else {
                1
            };
            exists|j: int|
                0 <= j < tasks.len() && (#[trigger] tasks[j]).name == t.name && tasks[j].occurrences.len() == n
                    && (forall|k: int| 0 <= k < n ==> !tasks[j].occurrences[k])
                    && tasks[j].count_in_progress == t.count_in_progress && tasks[j].weekday_only
                    == t.weekday_only
        }),
{
    let c = raw[ci];
    let t = c.tasks[ti];
    let tasks = materialized_categories(raw, ch)[ci].tasks;
    assert(materialized_categories(raw, ch)[ci] == materialized_category(c, ch));
    let n = at_least_one(t.occurrences);
    assert(week_includes(ch, spec_state_key(c.name, t.name)));
    assert(materialized_task(c.name, t, ch) == Some(fresh_task(t, n)));
    lemma_materialized_tasks_has(c.name, c.tasks, ch, ti);
    let j = choose|j: int| 0 <= j < tasks.len() && #[trigger] tasks[j] == fresh_task(t, n);
    assert(tasks[j].occurrences == unticked(n as nat));
}

/// A task with a variable number of boxes is part of the week with this
/// week's answer as its number of boxes (left out when that is 0), or with
/// its configured number (at least 1) when there is no answer.
pub proof fn lemma_variable_task_is_built(
    raw: Seq<CategoryConfigView>,
    ch: Option<WeekChoicesView>,
    ci: int,
    ti: int,
)
    requires
        0 <= ci < raw.len(),
        0 <= ti < raw[ci].tasks.len(),
        !raw[ci].tasks[ti].ask_include,
        raw[ci].tasks[ti].ask_occurrences,
    ensures
        ({
            let t = raw[ci].tasks[ti];
            let key = spec_state_key(raw[ci].name, t.name);
            let tasks = materialized_categories(raw, ch)[ci].tasks;
            let n: nat = if ch matches Some(c) && c.occurrences.contains_key(key) {
                ch->0.occurrences[key] as nat
            } else if t.occurrences >= 1 {
                t.occurrences as nat
            } else {
                1
            };
            n > 0 ==> exists|j: int|
                0 <= j < tasks.len() && (#[trigger] tasks[j]).name == t.name && tasks[j].occurrences.len() == n
                    && (forall|k: int| 0 <= k < n ==> !tasks[j].occurrences[k])
        }),
{
    let c = raw[ci];
    let t = c.tasks[ti];
    let key = spec_state_key(c.name, t.name);
    let tasks = materialized_categories(raw, ch)[ci].tasks;
    assert(materialized_categories(raw, ch)[ci] == materialized_category(c, ch));
    let n = chosen_occurrences(ch, key, t);
    if n != 0 {
        assert(materialized_task(c.name, t, ch) == Some(fresh_task(t, n)));
        lemma_materialized_tasks_has(c.name, c.tasks, ch, ti);
        let j = choose|j: int| 0 <= j < tasks.len() && #[trigger] tasks[j] == fresh_task(t, n);
        assert(tasks[j].occurrences == unticked(n as nat));
    }
}

/// Restoring keeps positions: box `i` of a task whose key has a saved list
/// becomes the saved box `i` where there is one, and unticked past the end
/// of the saved list; a task with no saved list keeps its boxes.
pub proof fn lemma_restore_by_position(
    cats: Seq<CategoryView>,
    saved: Map<Seq<char>, Seq<bool>>,
    ci: int,
    ti: int,
    i: int,
)
    requires
        0 <= ci < cats.len(),
        0 <= ti < cats[ci].tasks.len(),
        0 <= i < cats[ci].tasks[ti].occurrences.len(),
    ensures
        ({
            let key = spec_state_key(cats[ci].name, cats[ci].tasks[ti].name);
            let b = restored_categories(cats, saved)[ci].tasks[ti].occurrences[i];
            &&& saved.contains_key(key) && i < saved[key].len() ==> b == saved[key][i]
            &&& saved.contains_key(key) && i >= saved[key].len() ==> !b
            &&& !saved.contains_key(key) ==> b == cats[ci].tasks[ti].occurrences[i]
        }),
{
}

/// A task that does not count in the progress adds no box and no tick,
/// over the whole week as well as from Monday to Friday.
pub proof fn lemma_bonus_task_not_counted(ts: Seq<TaskView>, t: TaskView, weekday: bool)
    requires
        !t.count_in_progress,
    ensures
        tasks_boxes(ts.push(t), weekday) == tasks_boxes(ts, weekday),
        tasks_ticks(ts.push(t), weekday) == tasks_ticks(ts, weekday),
{
    assert(ts.push(t).drop_last() =~= ts);
}

/// What a task adds to the counts: over the whole week its boxes and ticks
/// when it counts in the progress; from Monday to Friday only when it also
/// is tracked from Monday to Friday.
pub proof fn lemma_task_counts(ts: Seq<TaskView>, t: TaskView)
    ensures
        tasks_boxes(ts.push(t), false) == tasks_boxes(ts, false) + if t.count_in_progress {
            t.occurrences.len()
        } else {
            0
        },
        tasks_ticks(ts.push(t), false) == tasks_ticks(ts, false) + if t.count_in_progress {
            count_true(t.occurrences)
        } else {
            0
        },
        tasks_boxes(ts.push(t), true) == tasks_boxes(ts, true) + if t.count_in_progress && t.weekday_only {
            t.occurrences.len()
        } else {
            0
        },
        tasks_ticks(ts.push(t), true) == tasks_ticks(ts, true) + if t.count_in_progress && t.weekday_only {
            count_true(t.occurrences)
        } else {
            0
        },
{
    assert(ts.push(t).drop_last() =~= ts);
}

/// The Monday-to-Friday counts never exceed the counts of the whole week,
/// task by task.
pub proof fn lemma_weekday_within_week(ts: Seq<TaskView>)
    ensures
        tasks_boxes(ts, true) <= tasks_boxes(ts, false),
        tasks_ticks(ts, true) <= tasks_ticks(ts, false),
    decreases ts.len(),
{
    if ts.len() > 0 {
        lemma_weekday_within_week(ts.drop_last());
    }
}

/// The Monday-to-Friday counts of a week never exceed its counts.
pub proof fn lemma_week_weekday_within_week(cs: Seq<CategoryView>)
    ensures
        week_boxes(cs, true) <= week_boxes(cs, false),
        week_ticks(cs, true) <= week_ticks(cs, false),
    decreases cs.len(),
{
    if cs.len() > 0 {
        lemma_week_weekday_within_week(cs.drop_last());
        lemma_weekday_within_week(cs.last().tasks);
    }
}

} // verus!
