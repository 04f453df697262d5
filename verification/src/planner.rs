use vstd::prelude::*;

use crate::calendar::{FIRST_MONDAY, LAST_DAY, iso_date_text, spec_monday_of, week_start_text};
use crate::config::{
    CategoryConfig, CategoryConfigView, TaskConfigView, category_configs_view, has_dynamic_tasks, map_of_pairs,
    spec_count_in_progress_map, spec_has_dynamic_tasks,
};
use crate::keys::{spec_state_key, state_key};
use crate::history::{History, WeekRecordView, archived};
use crate::model::{
    Category, CategoryView, TaskView, WeekChoices, WeekChoicesView, at_least_one, box_pairs, boxes_map_view,
    categories_view, category_progress, clear_boxes, cleared_categories, materialize_categories,
    materialized_categories, occurrence_state, restore_occurrences, restored_categories, tasks_all_boxes,
    tasks_boxes, tasks_ticks, tasks_view, week_all_boxes, week_boxes, week_progress, week_ticks,
};
use crate::setup::{
    WeekSetupState, defs_view, inclusion_pairs, new_week_setup_state, occurrence_pairs, setup_defs,
};
use crate::strmap::StrMap;
use crate::summary::{
    is_state_summary, lemma_state_all_boxes_prefix, state_all_boxes, state_boxes, summarize_categories, summarize_state, week_record_of,
};

verus! {

/// What is saved of the current week: the start of the week it belongs to,
/// every task's boxes under its state key, and this week's answers.
pub struct StateFile {
    pub week_start: Option<String>,
    pub tasks: StrMap<Vec<bool>>,
    pub choices: Option<WeekChoices>,
}

pub open spec fn option_choices_view(c: Option<WeekChoices>) -> Option<WeekChoicesView> {
    match c {
        Some(x) => Some(x@),
        None => None,
    }
}

pub open spec fn option_text_view(s: Option<String>) -> Option<Seq<char>> {
    match s {
        Some(x) => Some(x@),
        None => None,
    }
}

/// `s` is what is saved of the week with categories `cats` and answers
/// `choices`, on day `today`.
pub open spec fn is_snapshot(s: StateFile, cats: Seq<CategoryView>, choices: WeekChoicesView, today: int) -> bool {
    &&& option_text_view(s.week_start) == Some(iso_date_text(spec_monday_of(today) as i32))
    &&& boxes_map_view(s.tasks@) == map_of_pairs(box_pairs(cats))
    &&& option_choices_view(s.choices) == Some(choices)
}

/// What to save of the current week, on day `today`.
pub fn state_snapshot(cats: &Vec<Category>, choices: &WeekChoices, today: i32) -> (s: StateFile)
    requires
        FIRST_MONDAY <= today <= LAST_DAY,
    ensures
        is_snapshot(s, categories_view(cats@), choices@, today as int),
{
    StateFile {
        week_start: Some(week_start_text(today)),
        tasks: occurrence_state(cats),
        choices: Some(choices.copy()),
    }
}

/// The number of all boxes saved, when it fits in a `usize`.
pub fn state_box_count(tasks: &StrMap<Vec<bool>>) -> (r: Option<usize>)
    ensures
        match r {
            Some(n) => n == state_all_boxes(tasks.spec_entries()),
            None => state_all_boxes(tasks.spec_entries()) > usize::MAX,
        },
{
    let ghost es = tasks.spec_entries();
    let n = tasks.len();
    let mut total: usize = 0;
    let mut i: usize = 0;
    while i < n
        invariant
            n == es.len(),
            es == tasks.spec_entries(),
            i <= n,
            total == state_all_boxes(es.take(i as int)),
        decreases n - i,
    {
        assert(es.take(i + 1).drop_last() =~= es.take(i as int));
        let len = tasks.value_at(i).len();
        if len > usize::MAX - total {
            proof {
                lemma_state_all_boxes_prefix(es, i + 1);
            }
            return None;
        }
        total = total + len;
        i += 1;
    }
    assert(es.take(n as int) =~= es);
    Some(total)
}

/// Everything the application starts from.
pub struct LoadResult {
    pub raw_categories: Vec<CategoryConfig>,
    pub categories: Vec<Category>,
    pub current_choices: WeekChoices,
    pub warning: Option<String>,
    pub new_week_detected: bool,
    pub week_setup: Option<WeekSetupState>,
    pub history: History,
    pub had_prior_state: bool,
    /// Whether the history changed and is to be saved.
    pub history_changed: bool,
    /// What is to be saved of the current week, if anything.
    pub state_to_save: Option<StateFile>,
}

/// Whether the saved state belongs to another week than the one of `today`.
pub open spec fn is_new_week(week_start: Option<Seq<char>>, today: int) -> bool {
    match week_start {
        Some(s) => s != iso_date_text(spec_monday_of(today) as i32),
        None => false,
    }
}

/// `s` is the weekly questionnaire built from `raw` and `prior`.
pub open spec fn is_setup_for(s: WeekSetupState, raw: Seq<CategoryConfigView>, prior: Option<WeekChoicesView>) -> bool {
    &&& defs_view(s.defs@) == setup_defs(raw, prior)
    &&& s.include_answers@ == map_of_pairs(inclusion_pairs(defs_view(s.defs@)))
    &&& s.occurrence_answers@ == map_of_pairs(occurrence_pairs(defs_view(s.defs@)))
}

/// Starts the application from what was read: the configured categories
/// (with the warning to show, if any), the saved state, the history, and
/// today's date.
///
/// When the saved state belongs to an earlier week, that week is archived
/// and its boxes are not restored. The weekly questionnaire is opened when
/// some task is asked about and the week is new or has no answers yet;
/// then the answers saved are not used. Otherwise the boxes are restored
/// from the saved state, and the state is to be saved again.
pub fn load_all(
    raw_categories: Vec<CategoryConfig>,
    warning: Option<String>,
    state: StateFile,
    history: History,
    today: i32,
) -> (r: LoadResult)
    requires
        FIRST_MONDAY <= today <= LAST_DAY,
        state_all_boxes(state.tasks.spec_entries()) <= usize::MAX,
    ensures
        ({
            let raw = category_configs_view(raw_categories@);
            let new_week = is_new_week(option_text_view(state.week_start), today as int);
            let needs_setup = spec_has_dynamic_tasks(raw) && (new_week || state.choices is None);
            let effective = if needs_setup {
                None
            } else {
                option_choices_view(state.choices)
            };
            let fresh = materialized_categories(raw, effective);
            &&& category_configs_view(r.raw_categories@) == raw
            &&& r.warning == warning
            &&& r.new_week_detected == new_week
            &&& r.had_prior_state == state.week_start is Some
            &&& categories_view(r.categories@) == if !new_week && !needs_setup {
                restored_categories(fresh, boxes_map_view(state.tasks@))
            } else {
                fresh
            }
            &&& r.current_choices@ == match effective {
                Some(c) => c,
                None => WeekChoicesView { inclusion: Map::empty(), occurrences: Map::empty() },
            }
            &&& (r.week_setup is Some) == needs_setup
            &&& (r.week_setup matches Some(s) ==> is_setup_for(s, raw, option_choices_view(state.choices)))
            &&& (r.state_to_save is Some) == !needs_setup
            &&& (r.state_to_save matches Some(s) ==> is_snapshot(
                s,
                categories_view(r.categories@),
                r.current_choices@,
                today as int,
            ))
            &&& new_week ==> exists|rec: WeekRecordView|
                #[trigger] is_state_summary(
                    rec,
                    state.tasks.spec_entries(),
                    spec_count_in_progress_map(raw),
                    option_text_view(state.week_start).unwrap(),
                ) && r.history@ == archived(history@, rec)
            &&& !new_week ==> r.history@ == history@
            &&& r.history_changed == (new_week && state_boxes(
                state.tasks.spec_entries(),
                spec_count_in_progress_map(raw),
            ) != 0)
        }),
{
    let current_monday_str = week_start_text(today);
    let new_week = match &state.week_start {
        Some(saved) => !(*saved == current_monday_str),
        None => false,
    };
    let mut history = history;
    let mut history_changed = false;
    if new_week {
        match &state.week_start {
            Some(prev_week_start) => {
                let record = summarize_state(&state.tasks, &raw_categories, prev_week_start.as_str());
                let ghost rec = record@;
                history_changed = history.archive_week(record);
                assert(is_state_summary(
                    rec,
                    state.tasks.spec_entries(),
                    spec_count_in_progress_map(category_configs_view(raw_categories@)),
                    option_text_view(state.week_start).unwrap(),
                ));
            },
            None => {},
        }
    }
    let needs_setup = has_dynamic_tasks(&raw_categories) && (new_week || state.choices.is_none());
    let StateFile { week_start, tasks, choices } = state;
    let had_prior_state = week_start.is_some();
    let (effective, setup_prior) = if needs_setup {
        (None, choices)
    } else {
        (choices, None)
    };
    let fresh = materialize_categories(&raw_categories, effective.as_ref());
    let categories = if !new_week && !needs_setup {
        restore_occurrences(&fresh, &tasks)
    } else {
        fresh
    };
    let current_choices = match effective {
        Some(c) => c,
        None => WeekChoices::new(),
    };
    let state_to_save = if !needs_setup {
        Some(state_snapshot(&categories, &current_choices, today))
    } else {
        None
    };
    let week_setup = if needs_setup {
        Some(new_week_setup_state(&raw_categories, setup_prior.as_ref()))
    } else {
        None
    };
    LoadResult {
        raw_categories,
        categories,
        current_choices,
        warning,
        new_week_detected: new_week,
        week_setup,
        history,
        had_prior_state,
        history_changed,
        state_to_save,
    }
}


/// The pairs (state key, configured task) of one category, in order.
pub open spec fn category_task_pairs(c: CategoryConfigView) -> Seq<(Seq<char>, TaskConfigView)> {
    c.tasks.map_values(|t: TaskConfigView| (spec_state_key(c.name, t.name), t))
}

/// The pairs (state key, configured task) of the whole configuration.
pub open spec fn config_task_pairs(raw: Seq<CategoryConfigView>) -> Seq<(Seq<char>, TaskConfigView)>
    decreases raw.len(),
{
    if raw.len() == 0 {
        Seq::empty()
    } else {
        config_task_pairs(raw.drop_last()) + category_task_pairs(raw.last())
    }
}

/// The pairs (state key, configured number of boxes) of one category.
pub open spec fn category_occurrence_pairs(c: CategoryConfigView) -> Seq<(Seq<char>, u32)> {
    c.tasks.map_values(|t: TaskConfigView| (spec_state_key(c.name, t.name), t.occurrences))
}

/// The pairs (state key, configured number of boxes) of the whole configuration.
pub open spec fn config_occurrence_pairs(raw: Seq<CategoryConfigView>) -> Seq<(Seq<char>, u32)>
    decreases raw.len(),
{
    if raw.len() == 0 {
        Seq::empty()
    } else {
        config_occurrence_pairs(raw.drop_last()) + category_occurrence_pairs(raw.last())
    }
}

/// Every configured task's number of boxes under its state key (the last
/// task wins when two share a key).
fn configured_occurrences(raw: &Vec<CategoryConfig>) -> (m: StrMap<u32>)
    ensures
        m@ == map_of_pairs(config_occurrence_pairs(category_configs_view(raw@))),
{
    let ghost rv = category_configs_view(raw@);
    let mut m: StrMap<u32> = StrMap::new();
    let n = raw.len();
    let mut i: usize = 0;
    assert(rv.take(0) =~= Seq::<CategoryConfigView>::empty());
    while i < n
        invariant
            n == raw@.len(),
            rv == category_configs_view(raw@),
            i <= n,
            m@ == map_of_pairs(config_occurrence_pairs(rv.take(i as int))),
        decreases n - i,
    {
        let c = &raw[i];
        let ghost before = config_occurrence_pairs(rv.take(i as int));
        let ghost pairs = category_occurrence_pairs(rv[i as int]);
        let k = c.tasks.len();
        let mut j: usize = 0;
        assert(before + pairs.take(0) =~= before);
        while j < k
            invariant
                k == c.tasks@.len(),
                j <= k,
                c@ == rv[i as int],
                pairs == category_occurrence_pairs(rv[i as int]),
                pairs.len() == k,
                m@ == map_of_pairs(before + pairs.take(j as int)),
            decreases k - j,
        {
            let t = &c.tasks[j];
            let key = state_key(c.name.as_str(), t.name.as_str());
            m.insert(key, t.occurrences);
            assert((before + pairs.take(j + 1)).drop_last() =~= before + pairs.take(j as int));
            j += 1;
        }
        assert(rv.take(i + 1).drop_last() =~= rv.take(i as int));
        assert(pairs.take(k as int) =~= pairs);
        i += 1;
    }
    assert(rv.take(n as int) =~= rv);
    m
}

/// The weekly numbers of boxes after the editor saved: every variable task
/// whose configured number differs from what it was (or that is new) gets
/// that number (at least 1) for the current week; the others keep theirs.
pub open spec fn edited_occurrence_choices(
    m: Map<Seq<char>, u32>,
    old: Map<Seq<char>, u32>,
    ps: Seq<(Seq<char>, TaskConfigView)>,
) -> Map<Seq<char>, u32>
    decreases ps.len(),
{
    if ps.len() == 0 {
        m
    } else {
        let m2 = edited_occurrence_choices(m, old, ps.drop_last());
        let (k, t) = ps.last();
        if t.ask_occurrences && !(old.contains_key(k) && old[k] == t.occurrences) {
            m2.insert(k, at_least_one(t.occurrences))
        } else {
            m2
        }
    }
}

/// A key whose variable task's number of boxes the editor did not change
/// keeps its weekly answer.
pub proof fn lemma_editor_keeps_unchanged_choice(
    m: Map<Seq<char>, u32>,
    old: Map<Seq<char>, u32>,
    ps: Seq<(Seq<char>, TaskConfigView)>,
    k: Seq<char>,
)
    requires
        forall|i: int|
            0 <= i < ps.len() && #[trigger] ps[i].0 == k && ps[i].1.ask_occurrences ==> old.contains_key(k)
                && old[k] == ps[i].1.occurrences,
    ensures
        edited_occurrence_choices(m, old, ps).contains_key(k) == m.contains_key(k),
        m.contains_key(k) ==> edited_occurrence_choices(m, old, ps)[k] == m[k],
    decreases ps.len(),
{
    if ps.len() > 0 {
        let d = ps.drop_last();
        assert forall|i: int|
            0 <= i < d.len() && #[trigger] d[i].0 == k && d[i].1.ask_occurrences implies old.contains_key(k)
            && old[k] == d[i].1.occurrences by {
            assert(d[i] == ps[i]);
        }
        lemma_editor_keeps_unchanged_choice(m, old, d, k);
        let last = ps.len() - 1;
        assert(ps.last() == ps[last]);
    }
}

/// The logical state of the application.
pub struct Planner {
    pub raw_categories: Vec<CategoryConfig>,
    pub categories: Vec<Category>,
    pub current_choices: WeekChoices,
    pub history: History,
    pub show_reset_confirm: bool,
    pub week_setup: Option<WeekSetupState>,
    pub new_week_detected: bool,
    pub has_real_week_data: bool,
    /// Whether each category was complete at the last check, by name.
    pub prev_category_complete: StrMap<bool>,
    pub prev_week_complete: bool,
}

/// Whether a category is complete: it has counted boxes, all ticked.
pub open spec fn category_complete(c: CategoryView) -> bool {
    tasks_boxes(c.tasks, false) > 0 && tasks_ticks(c.tasks, false) == tasks_boxes(c.tasks, false)
}

/// Whether a category of that name was complete at the last check.
pub open spec fn was_complete(m: Map<Seq<char>, bool>, name: Seq<char>) -> bool {
    m.contains_key(name) && m[name]
}

/// The completion flags after checking the categories `cs` in order.
pub open spec fn completions_after(m: Map<Seq<char>, bool>, cs: Seq<CategoryView>) -> Map<Seq<char>, bool>
    decreases cs.len(),
{
    if cs.len() == 0 {
        m
    } else {
        completions_after(m, cs.drop_last()).insert(cs.last().name, category_complete(cs.last()))
    }
}

/// What checking the categories in order tells the display: `(name, true)`
/// for a category that just became complete (its pulse starts), `(name,
/// false)` for one that is not complete (its pulse stops).
pub open spec fn completion_events(m: Map<Seq<char>, bool>, cs: Seq<CategoryView>) -> Seq<(Seq<char>, bool)>
    decreases cs.len(),
{
    if cs.len() == 0 {
        Seq::empty()
    } else {
        let before = completions_after(m, cs.drop_last());
        let c = cs.last();
        completion_events(m, cs.drop_last()) + if category_complete(c) && !was_complete(before, c.name) {
            seq![(c.name, true)]
        } else if !category_complete(c) {
            seq![(c.name, false)]
        } else {
            Seq::empty()
        }
    }
}

/// What a check of completion tells the display.
pub struct CompletionUpdate {
    /// In order, `(name, true)` when a category just became complete and
    /// `(name, false)` when a category is not complete.
    pub events: Vec<(String, bool)>,
    /// Whether the whole week just became complete.
    pub week_just_completed: bool,
}

pub open spec fn events_view(s: Seq<(String, bool)>) -> Seq<(Seq<char>, bool)> {
    s.map_values(|e: (String, bool)| (e.0@, e.1))
}

/// Whether the week is complete: it has counted boxes, all ticked.
pub open spec fn week_complete(cs: Seq<CategoryView>) -> bool {
    week_boxes(cs, false) > 0 && week_ticks(cs, false) == week_boxes(cs, false)
}

/// The box of a task flipped.
pub open spec fn toggled(cs: Seq<CategoryView>, ci: int, ti: int, oi: int) -> Seq<CategoryView> {
    let c = cs[ci];
    let t = c.tasks[ti];
    cs.update(
        ci,
        CategoryView {
            name: c.name,
            icon: c.icon,
            tasks: c.tasks.update(
                ti,
                TaskView {
                    name: t.name,
                    occurrences: t.occurrences.update(oi, !t.occurrences[oi]),
                    count_in_progress: t.count_in_progress,
                    weekday_only: t.weekday_only,
                },
            ),
        },
    )
}

/// Flipping a box twice gives the categories back.
pub proof fn lemma_toggle_twice(cs: Seq<CategoryView>, ci: int, ti: int, oi: int)
    requires
        0 <= ci < cs.len(),
        0 <= ti < cs[ci].tasks.len(),
        0 <= oi < cs[ci].tasks[ti].occurrences.len(),
    ensures
        toggled(toggled(cs, ci, ti, oi), ci, ti, oi) == cs,
{
    let t1 = toggled(cs, ci, ti, oi);
    let t2 = toggled(t1, ci, ti, oi);
    assert(t2[ci].tasks[ti].occurrences =~= cs[ci].tasks[ti].occurrences);
    assert(t2[ci].tasks =~= cs[ci].tasks);
    assert(t2 =~= cs);
}

impl Planner {
    /// The state the application starts in.
    pub fn from_load(loaded: LoadResult) -> (p: Self)
        ensures
            p.raw_categories == loaded.raw_categories,
            p.categories == loaded.categories,
            p.current_choices == loaded.current_choices,
            p.history == loaded.history,
            !p.show_reset_confirm,
            p.week_setup == loaded.week_setup,
            p.new_week_detected == loaded.new_week_detected,
            p.has_real_week_data == loaded.had_prior_state,
            p.prev_category_complete@ == Map::<Seq<char>, bool>::empty(),
            !p.prev_week_complete,
    {
        Planner {
            raw_categories: loaded.raw_categories,
            categories: loaded.categories,
            current_choices: loaded.current_choices,
            history: loaded.history,
            show_reset_confirm: false,
            week_setup: loaded.week_setup,
            new_week_detected: loaded.new_week_detected,
            has_real_week_data: loaded.had_prior_state,
            prev_category_complete: StrMap::new(),
            prev_week_complete: false,
        }
    }

    /// Archives the current week (when there is real data for it), unticks
    /// every box and starts tracking completion afresh. Returns whether the
    /// history is to be saved, and what to save of the current week.
    pub fn reset_week(&mut self, today: i32) -> (r: (bool, StateFile))
        requires
            FIRST_MONDAY <= today <= LAST_DAY,
            week_all_boxes(categories_view(old(self).categories@)) <= usize::MAX,
        ensures
            ({
                let cv = categories_view(old(self).categories@);
                let record = week_record_of(cv, iso_date_text(spec_monday_of(today as int) as i32));
                &&& final(self).history@ == if old(self).has_real_week_data {
                    archived(old(self).history@, record)
                } else {
                    old(self).history@
                }
                &&& r.0 == (old(self).has_real_week_data && record.total != 0)
                &&& categories_view(final(self).categories@) == cleared_categories(cv)
                &&& is_snapshot(r.1, cleared_categories(cv), final(self).current_choices@, today as int)
            }),
            final(self).raw_categories == old(self).raw_categories,
            final(self).current_choices == old(self).current_choices,
            final(self).show_reset_confirm == old(self).show_reset_confirm,
            final(self).week_setup == old(self).week_setup,
            final(self).new_week_detected == old(self).new_week_detected,
            final(self).has_real_week_data,
            final(self).prev_category_complete@ == Map::<Seq<char>, bool>::empty(),
            !final(self).prev_week_complete,
    {
        let mut changed = false;
        if self.has_real_week_data {
            let week_start = week_start_text(today);
            let record = summarize_categories(&self.categories, week_start.as_str());
            changed = self.history.archive_week(record);
        }
        let cleared = clear_boxes(&self.categories);
        self.categories = cleared;
        let state = state_snapshot(&self.categories, &self.current_choices, today);
        self.prev_category_complete = StrMap::new();
        self.prev_week_complete = false;
        self.has_real_week_data = true;
        (changed, state)
    }

    /// The "new week" button: opens the weekly questionnaire when some task
    /// is asked about (proposing answers from the current ones), otherwise
    /// asks for confirmation.
    pub fn open_new_week_flow(&mut self)
        ensures
            spec_has_dynamic_tasks(category_configs_view(old(self).raw_categories@)) ==> {
                &&& final(self).week_setup matches Some(s) && is_setup_for(
                    s,
                    category_configs_view(old(self).raw_categories@),
                    Some(old(self).current_choices@),
                )
                &&& final(self).show_reset_confirm == old(self).show_reset_confirm
            },
            !spec_has_dynamic_tasks(category_configs_view(old(self).raw_categories@)) ==> {
                &&& final(self).week_setup == old(self).week_setup
                &&& final(self).show_reset_confirm
            },
            final(self).raw_categories == old(self).raw_categories,
            final(self).categories == old(self).categories,
            final(self).current_choices == old(self).current_choices,
            final(self).history == old(self).history,
            final(self).new_week_detected == old(self).new_week_detected,
            final(self).has_real_week_data == old(self).has_real_week_data,
            final(self).prev_category_complete == old(self).prev_category_complete,
            final(self).prev_week_complete == old(self).prev_week_complete,
    {
        if has_dynamic_tasks(&self.raw_categories) {
            let setup = new_week_setup_state(&self.raw_categories, Some(&self.current_choices));
            self.week_setup = Some(setup);
        } else {
            self.show_reset_confirm = true;
        }
    }

    /// Ends the weekly questionnaire, if open: archives the current week
    /// (when there is real data for it), takes the answers as this week's
    /// choices and rebuilds the categories from them, every box unticked.
    /// Returns, when the questionnaire was open, whether the history is to
    /// be saved and what to save of the current week.
    pub fn finalize_week_setup(&mut self, today: i32) -> (r: Option<(bool, StateFile)>)
        requires
            FIRST_MONDAY <= today <= LAST_DAY,
            week_all_boxes(categories_view(old(self).categories@)) <= usize::MAX,
        ensures
            match old(self).week_setup {
                None => r is None && *final(self) == *old(self),
                Some(setup) => {
                    let cv = categories_view(old(self).categories@);
                    let record = week_record_of(cv, iso_date_text(spec_monday_of(today as int) as i32));
                    let choices = WeekChoicesView {
                        inclusion: setup.include_answers@,
                        occurrences: setup.occurrence_answers@,
                    };
                    &&& r matches Some((changed, state)) && {
                        &&& changed == (old(self).has_real_week_data && record.total != 0)
                        &&& is_snapshot(state, categories_view(final(self).categories@), choices, today as int)
                    }
                    &&& final(self).history@ == if old(self).has_real_week_data {
                        archived(old(self).history@, record)
                    } else {
                        old(self).history@
                    }
                    &&& final(self).current_choices@ == choices
                    &&& categories_view(final(self).categories@) == materialized_categories(
                        category_configs_view(old(self).raw_categories@),
                        Some(choices),
                    )
                    &&& final(self).raw_categories == old(self).raw_categories
                    &&& final(self).week_setup is None
                    &&& final(self).show_reset_confirm == old(self).show_reset_confirm
                    &&& !final(self).new_week_detected
                    &&& final(self).has_real_week_data
                    &&& final(self).prev_category_complete@ == Map::<Seq<char>, bool>::empty()
                    &&& !final(self).prev_week_complete
                },
            },
    {
        let mut setup_opt: Option<WeekSetupState> = None;
        std::mem::swap(&mut setup_opt, &mut self.week_setup);
        match setup_opt {
            None => {
                self.week_setup = None;
                None
            },
            Some(setup) => {
                let mut changed = false;
                if self.has_real_week_data {
                    let week_start = week_start_text(today);
                    let record = summarize_categories(&self.categories, week_start.as_str());
                    changed = self.history.archive_week(record);
                }
                let WeekSetupState { defs: _, include_answers, occurrence_answers } = setup;
                let choices = WeekChoices { inclusion: include_answers, occurrences: occurrence_answers };
                let cats = materialize_categories(&self.raw_categories, Some(&choices));
                self.categories = cats;
                self.current_choices = choices;
                let state = state_snapshot(&self.categories, &self.current_choices, today);
                self.prev_category_complete = StrMap::new();
                self.prev_week_complete = false;
                self.new_week_detected = false;
                self.has_real_week_data = true;
                Some((changed, state))
            },
        }
    }

    /// Takes the categories saved from the editor. A variable task whose
    /// configured number of boxes changed (or that is new) gets that number
    /// for the current week at once; the categories are rebuilt from the new
    /// configuration and the week's answers, and every task gets back the
    /// boxes it had under its key. Returns what to save of the current week.
    pub fn save_editor(&mut self, edited: Vec<CategoryConfig>, today: i32) -> (state: StateFile)
        requires
            FIRST_MONDAY <= today <= LAST_DAY,
        ensures
            ({
                let old_raw = category_configs_view(old(self).raw_categories@);
                let new_raw = category_configs_view(edited@);
                let choices = WeekChoicesView {
                    inclusion: old(self).current_choices@.inclusion,
                    occurrences: edited_occurrence_choices(
                        old(self).current_choices@.occurrences,
                        map_of_pairs(config_occurrence_pairs(old_raw)),
                        config_task_pairs(new_raw),
                    ),
                };
                &&& final(self).current_choices@ == choices
                &&& category_configs_view(final(self).raw_categories@) == new_raw
                &&& categories_view(final(self).categories@) == restored_categories(
                    materialized_categories(new_raw, Some(choices)),
                    map_of_pairs(box_pairs(categories_view(old(self).categories@))),
                )
                &&& is_snapshot(state, categories_view(final(self).categories@), choices, today as int)
            }),
            final(self).history == old(self).history,
            final(self).show_reset_confirm == old(self).show_reset_confirm,
            final(self).week_setup == old(self).week_setup,
            final(self).new_week_detected == old(self).new_week_detected,
            final(self).has_real_week_data == old(self).has_real_week_data,
            final(self).prev_category_complete == old(self).prev_category_complete,
            final(self).prev_week_complete == old(self).prev_week_complete,
    {
        let ghost old_raw = category_configs_view(self.raw_categories@);
        let ghost new_raw = category_configs_view(edited@);
        let old_occurrences = configured_occurrences(&self.raw_categories);
        let ghost oldm = old_occurrences@;
        let ghost m0 = self.current_choices@.occurrences;
        let n = edited.len();
        let mut i: usize = 0;
        assert(new_raw.take(0) =~= Seq::<CategoryConfigView>::empty());
        while i < n
            invariant
                n == edited@.len(),
                new_raw == category_configs_view(edited@),
                oldm == old_occurrences@,
                i <= n,
                self.current_choices@.inclusion == old(self).current_choices@.inclusion,
                m0 == old(self).current_choices@.occurrences,
                self.current_choices@.occurrences == edited_occurrence_choices(
                    m0,
                    oldm,
                    config_task_pairs(new_raw.take(i as int)),
                ),
                self.raw_categories == old(self).raw_categories,
                self.categories == old(self).categories,
                self.history == old(self).history,
                self.show_reset_confirm == old(self).show_reset_confirm,
                self.week_setup == old(self).week_setup,
                self.new_week_detected == old(self).new_week_detected,
                self.has_real_week_data == old(self).has_real_week_data,
                self.prev_category_complete == old(self).prev_category_complete,
                self.prev_week_complete == old(self).prev_week_complete,
            decreases n - i,
        {
            let c = &edited[i];
            let ghost before = config_task_pairs(new_raw.take(i as int));
            let ghost pairs = category_task_pairs(new_raw[i as int]);
            let k = c.tasks.len();
            let mut j: usize = 0;
            assert(before + pairs.take(0) =~= before);
            while j < k
                invariant
                    k == c.tasks@.len(),
                    j <= k,
                    c@ == new_raw[i as int],
                    pairs == category_task_pairs(new_raw[i as int]),
                    pairs.len() == k,
                    oldm == old_occurrences@,
                    self.current_choices@.inclusion == old(self).current_choices@.inclusion,
                    self.current_choices@.occurrences == edited_occurrence_choices(
                        m0,
                        oldm,
                        before + pairs.take(j as int),
                    ),
                    self.raw_categories == old(self).raw_categories,
                    self.categories == old(self).categories,
                    self.history == old(self).history,
                    self.show_reset_confirm == old(self).show_reset_confirm,
                    self.week_setup == old(self).week_setup,
                    self.new_week_detected == old(self).new_week_detected,
                    self.has_real_week_data == old(self).has_real_week_data,
                    self.prev_category_complete == old(self).prev_category_complete,
                    self.prev_week_complete == old(self).prev_week_complete,
                decreases k - j,
            {
                let t = &c.tasks[j];
                assert((before + pairs.take(j + 1)).drop_last() =~= before + pairs.take(j as int));
                assert((before + pairs.take(j + 1)).last() == pairs[j as int]);
                if t.ask_occurrences {
                    let key = state_key(c.name.as_str(), t.name.as_str());
                    let same = match old_occurrences.get(&key) {
                        Some(v) => *v == t.occurrences,
                        None => false,
                    };
                    if !same {
                        let n_occ = if t.occurrences >= 1 { t.occurrences } else { 1 };
                        self.current_choices.occurrences.insert(key, n_occ);
                    }
                }
                j += 1;
            }
            assert(new_raw.take(i + 1).drop_last() =~= new_raw.take(i as int));
            assert(pairs.take(k as int) =~= pairs);
            i += 1;
        }
        assert(new_raw.take(n as int) =~= new_raw);
        self.raw_categories = edited;
        let fresh = materialize_categories(&self.raw_categories, Some(&self.current_choices));
        let old_state = occurrence_state(&self.categories);
        let cats = restore_occurrences(&fresh, &old_state);
        self.categories = cats;
        state_snapshot(&self.categories, &self.current_choices, today)
    }

    /// A click on a box: flips it and returns its new value.
    pub fn toggle_box(&mut self, ci: usize, ti: usize, oi: usize) -> (ticked: bool)
        requires
            ci < old(self).categories@.len(),
            ti < old(self).categories@[ci as int].tasks@.len(),
            oi < old(self).categories@[ci as int].tasks@[ti as int].occurrences@.len(),
        ensures
            categories_view(final(self).categories@) == toggled(
                categories_view(old(self).categories@),
                ci as int,
                ti as int,
                oi as int,
            ),
            ticked == !old(self).categories@[ci as int].tasks@[ti as int].occurrences@[oi as int],
            final(self).raw_categories == old(self).raw_categories,
            final(self).current_choices == old(self).current_choices,
            final(self).history == old(self).history,
            final(self).show_reset_confirm == old(self).show_reset_confirm,
            final(self).week_setup == old(self).week_setup,
            final(self).new_week_detected == old(self).new_week_detected,
            final(self).has_real_week_data == old(self).has_real_week_data,
            final(self).prev_category_complete == old(self).prev_category_complete,
            final(self).prev_week_complete == old(self).prev_week_complete,
    {
        let ghost cv = categories_view(self.categories@);
        let mut cats: Vec<Category> = Vec::new();
        std::mem::swap(&mut cats, &mut self.categories);
        let ghost all = cats@;
        let mut cat = cats.remove(ci);
        let ghost cat0 = cat;
        let mut task = cat.tasks.remove(ti);
        let ghost task0 = task;
        let value = !task.occurrences[oi];
        task.occurrences.set(oi, value);
        cat.tasks.insert(ti, task);
        cats.insert(ci, cat);
        proof {
            let target = toggled(cv, ci as int, ti as int, oi as int);
            assert(tasks_view(cat.tasks@) =~= target[ci as int].tasks);
            assert(categories_view(cats@) =~= target);
        }
        self.categories = cats;
        value
    }

    /// Checks which categories, and whether the week, are complete, against
    /// the last check; remembers the result for the next check.
    pub fn track_completion(&mut self) -> (u: CompletionUpdate)
        requires
            week_all_boxes(categories_view(old(self).categories@)) <= usize::MAX,
        ensures
            ({
                let cv = categories_view(old(self).categories@);
                &&& events_view(u.events@) == completion_events(old(self).prev_category_complete@, cv)
                &&& final(self).prev_category_complete@ == completions_after(
                    old(self).prev_category_complete@,
                    cv,
                )
                &&& u.week_just_completed == (week_complete(cv) && !old(self).prev_week_complete)
                &&& final(self).prev_week_complete == week_complete(cv)
            }),
            final(self).raw_categories == old(self).raw_categories,
            final(self).categories == old(self).categories,
            final(self).current_choices == old(self).current_choices,
            final(self).history == old(self).history,
            final(self).show_reset_confirm == old(self).show_reset_confirm,
            final(self).week_setup == old(self).week_setup,
            final(self).new_week_detected == old(self).new_week_detected,
            final(self).has_real_week_data == old(self).has_real_week_data,
    {
        let ghost cv = categories_view(self.categories@);
        let ghost m0 = self.prev_category_complete@;
        let mut events: Vec<(String, bool)> = Vec::new();
        let n = self.categories.len();
        let mut i: usize = 0;
        assert(cv.take(0) =~= Seq::<CategoryView>::empty());
        while i < n
            invariant
                n == self.categories@.len(),
                cv == categories_view(self.categories@),
                week_all_boxes(cv) <= usize::MAX,
                i <= n,
                m0 == old(self).prev_category_complete@,
                self.prev_category_complete@ == completions_after(m0, cv.take(i as int)),
                events_view(events@) == completion_events(m0, cv.take(i as int)),
                self.raw_categories == old(self).raw_categories,
                self.categories == old(self).categories,
                self.current_choices == old(self).current_choices,
                self.history == old(self).history,
                self.show_reset_confirm == old(self).show_reset_confirm,
                self.week_setup == old(self).week_setup,
                self.new_week_detected == old(self).new_week_detected,
                self.has_real_week_data == old(self).has_real_week_data,
                self.prev_week_complete == old(self).prev_week_complete,
            decreases n - i,
        {
            let c = &self.categories[i];
            proof {
                assert(cv.take(i + 1).drop_last() =~= cv.take(i as int));
                assert(cv.take(i + 1).last() == c@);
                lemma_week_all_boxes_le(cv, i as int);
            }
            let (d, t) = category_progress(c, false);
            let complete = t > 0 && d == t;
            let was = match self.prev_category_complete.get(&c.name) {
                Some(b) => *b,
                None => false,
            };
            let ghost prev_events = events@;
            if complete && !was {
                events.push((c.name.clone(), true));
            } else if !complete {
                events.push((c.name.clone(), false));
            }
            assert(events_view(events@) =~= completion_events(m0, cv.take(i + 1)));
            let name = c.name.clone();
            self.prev_category_complete.insert(name, complete);
            i += 1;
        }
        assert(cv.take(n as int) =~= cv);
        let (done, total) = week_progress(&self.categories, false);
        let week_done = total > 0 && done == total;
        let just = week_done && !self.prev_week_complete;
        self.prev_week_complete = week_done;
        CompletionUpdate { events, week_just_completed: just }
    }
}

proof fn lemma_week_all_boxes_le(cs: Seq<CategoryView>, i: int)
    requires
        0 <= i < cs.len(),
    ensures
        tasks_all_boxes(cs[i].tasks) <= week_all_boxes(cs),
    decreases cs.len(),
{
    if i < cs.len() - 1 {
        assert(cs.drop_last()[i] == cs[i]);
        lemma_week_all_boxes_le(cs.drop_last(), i);
    }
}

} // verus!
