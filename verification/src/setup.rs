use vstd::prelude::*;

use crate::config::{CategoryConfig, CategoryConfigView, TaskConfigView, category_configs_view, map_of_pairs};
use crate::keys::{spec_state_key, state_key};
use crate::model::{WeekChoices, WeekChoicesView, at_least_one, choices_view, option_seq};
use crate::strmap::StrMap;

verus! {

/// What the weekly questionnaire asks of a task, with the answer it
/// proposes.
#[allow(inconsistent_fields)]
#[derive(PartialEq, Eq, Structural, Clone, Copy)]
pub enum DynamicKind {
    /// Whether the task is part of this week.
    Include { default: bool },
    /// How many boxes the task gets this week.
    Occurrences { default: u32 },
}

/// One question of the weekly questionnaire.
pub struct DynamicTaskDef {
    pub category: String,
    pub task_name: String,
    pub kind: DynamicKind,
}

pub struct DynamicTaskDefView {
    pub category: Seq<char>,
    pub task_name: Seq<char>,
    pub kind: DynamicKind,
}

impl View for DynamicTaskDef {
    type V = DynamicTaskDefView;

    open spec fn view(&self) -> DynamicTaskDefView {
        DynamicTaskDefView { category: self.category@, task_name: self.task_name@, kind: self.kind }
    }
}

pub open spec fn defs_view(s: Seq<DynamicTaskDef>) -> Seq<DynamicTaskDefView> {
    s.map_values(|d: DynamicTaskDef| d@)
}

/// The proposed inclusion of a task: the opposite of last week's answer
/// (a task asked about is typically done one week out of two), or included
/// when there is no answer.
pub open spec fn proposed_inclusion(prior: Option<WeekChoicesView>, key: Seq<char>) -> bool {
    match prior {
        Some(p) => if p.inclusion.contains_key(key) {
            !p.inclusion[key]
        } else {
            true
        },
        None => true,
    }
}

/// The proposed number of boxes of a task: last week's answer, or the
/// configured number (at least 1).
pub open spec fn proposed_occurrences(prior: Option<WeekChoicesView>, key: Seq<char>, t: TaskConfigView) -> u32 {
    match prior {
        Some(p) => if p.occurrences.contains_key(key) {
            p.occurrences[key]
        } else {
            at_least_one(t.occurrences)
        },
        None => at_least_one(t.occurrences),
    }
}

/// The question asked of a configured task, if any.
pub open spec fn setup_def(cat: Seq<char>, t: TaskConfigView, prior: Option<WeekChoicesView>) -> Option<DynamicTaskDefView> {
    let key = spec_state_key(cat, t.name);
    if t.ask_include {
        Some(
            DynamicTaskDefView {
                category: cat,
                task_name: t.name,
                kind: DynamicKind::Include { default: proposed_inclusion(prior, key) },
            },
        )
    } else if t.ask_occurrences {
        Some(
            DynamicTaskDefView {
                category: cat,
                task_name: t.name,
                kind: DynamicKind::Occurrences { default: proposed_occurrences(prior, key, t) },
            },
        )
    } else {
        None
    }
}

/// The questions asked of a category's tasks, in order.
pub open spec fn category_setup_defs(cat: Seq<char>, ts: Seq<TaskConfigView>, prior: Option<WeekChoicesView>) -> Seq<DynamicTaskDefView>
    decreases ts.len(),
{
    if ts.len() == 0 {
        Seq::empty()
    } else {
        category_setup_defs(cat, ts.drop_last(), prior) + option_seq(setup_def(cat, ts.last(), prior))
    }
}

/// The questions of the weekly questionnaire, category after category.
pub open spec fn setup_defs(raw: Seq<CategoryConfigView>, prior: Option<WeekChoicesView>) -> Seq<DynamicTaskDefView>
    decreases raw.len(),
{
    if raw.len() == 0 {
        Seq::empty()
    } else {
        setup_defs(raw.drop_last(), prior) + category_setup_defs(raw.last().name, raw.last().tasks, prior)
    }
}

/// The questions of the weekly questionnaire: one per task asked about for
/// its inclusion (proposing the opposite of last week's answer) or for its
/// number of boxes (proposing last week's answer).
pub fn build_setup_defs(raw: &Vec<CategoryConfig>, prior: Option<&WeekChoices>) -> (defs: Vec<DynamicTaskDef>)
    ensures
        defs_view(defs@) == setup_defs(category_configs_view(raw@), choices_view(prior)),
{
    let ghost rv = category_configs_view(raw@);
    let ghost pv = choices_view(prior);
    let mut defs: Vec<DynamicTaskDef> = Vec::new();
    let n = raw.len();
    let mut i: usize = 0;
    while i < n
        invariant
            n == raw@.len(),
            rv == category_configs_view(raw@),
            pv == choices_view(prior),
            i <= n,
            defs_view(defs@) == setup_defs(rv.take(i as int), pv),
        decreases n - i,
    {
        let c = &raw[i];
        let ghost before = setup_defs(rv.take(i as int), pv);
        let ghost ctv = c@.tasks;
        let m = c.tasks.len();
        let mut j: usize = 0;
        assert(ctv.take(0) =~= Seq::<TaskConfigView>::empty());
        assert(before + category_setup_defs(c.name@, ctv.take(0), pv) =~= before);
        while j < m
            invariant
                m == c.tasks@.len(),
                ctv == c@.tasks,
                pv == choices_view(prior),
                j <= m,
                defs_view(defs@) == before + category_setup_defs(c.name@, ctv.take(j as int), pv),
            decreases m - j,
        {
            let t = &c.tasks[j];
            assert(ctv.take(j + 1).drop_last() =~= ctv.take(j as int));
            assert(ctv.take(j + 1).last() == t@);
            let ghost prev = defs@;
            let key = state_key(c.name.as_str(), t.name.as_str());
            assert(category_setup_defs(c.name@, ctv.take(j + 1), pv) == category_setup_defs(
                c.name@,
                ctv.take(j as int),
                pv,
            ) + option_seq(setup_def(c.name@, t@, pv)));
            if t.ask_include {
                let default = match prior {
                    Some(p) => match p.inclusion.get(&key) {
                        Some(prev) => !*prev,
                        None => true,
                    },
                    None => true,
                };
                defs.push(
                    DynamicTaskDef {
                        category: c.name.clone(),
                        task_name: t.name.clone(),
                        kind: DynamicKind::Include { default },
                    },
                );
            } else if t.ask_occurrences {
                let default = match prior {
                    Some(p) => match p.occurrences.get(&key) {
                        Some(v) => *v,
                        None => if t.occurrences >= 1 { t.occurrences } else { 1 },
                    },
                    None => if t.occurrences >= 1 { t.occurrences } else { 1 },
                };
                defs.push(
                    DynamicTaskDef {
                        category: c.name.clone(),
                        task_name: t.name.clone(),
                        kind: DynamicKind::Occurrences { default },
                    },
                );
            }
            proof {
                if t.ask_include || t.ask_occurrences {
                    assert(defs@ == prev.push(defs@.last()));
                    assert(defs@.last()@ == setup_def(c.name@, t@, pv).unwrap());
                    assert(defs_view(defs@) =~= defs_view(prev).push(defs@.last()@));
                } else {
                    assert(defs@ == prev);
                }
            }
            assert(defs_view(defs@) =~= before + category_setup_defs(c.name@, ctv.take(j + 1), pv));
            j += 1;
        }
        assert(ctv.take(m as int) =~= ctv);
        assert(rv.take(i + 1).drop_last() =~= rv.take(i as int));
        assert(rv.take(i + 1).last() == c@);
        i += 1;
    }
    assert(rv.take(n as int) =~= rv);
    defs
}

/// The proposed answers to the inclusion questions, by state key.
pub open spec fn inclusion_pairs(defs: Seq<DynamicTaskDefView>) -> Seq<(Seq<char>, bool)>
    decreases defs.len(),
{
    if defs.len() == 0 {
        Seq::empty()
    } else {
        let d = defs.last();
        inclusion_pairs(defs.drop_last()) + match d.kind {
            DynamicKind::Include { default } => seq![(spec_state_key(d.category, d.task_name), default)],
            DynamicKind::Occurrences { .. } => Seq::empty(),
        }
    }
}

/// The proposed answers to the questions on numbers of boxes, by state key.
pub open spec fn occurrence_pairs(defs: Seq<DynamicTaskDefView>) -> Seq<(Seq<char>, u32)>
    decreases defs.len(),
{
    if defs.len() == 0 {
        Seq::empty()
    } else {
        let d = defs.last();
        occurrence_pairs(defs.drop_last()) + match d.kind {
            DynamicKind::Include { .. } => Seq::empty(),
            DynamicKind::Occurrences { default } => seq![(spec_state_key(d.category, d.task_name), default)],
        }
    }
}

/// The weekly questionnaire: its questions and the answers given so far,
/// which start as the proposed ones.
pub struct WeekSetupState {
    pub defs: Vec<DynamicTaskDef>,
    pub include_answers: StrMap<bool>,
    pub occurrence_answers: StrMap<u32>,
}

/// A new weekly questionnaire, every answer set to the proposed one.
pub fn new_week_setup_state(raw: &Vec<CategoryConfig>, prior: Option<&WeekChoices>) -> (s: WeekSetupState)
    ensures
        defs_view(s.defs@) == setup_defs(category_configs_view(raw@), choices_view(prior)),
        s.include_answers@ == map_of_pairs(inclusion_pairs(defs_view(s.defs@))),
        s.occurrence_answers@ == map_of_pairs(occurrence_pairs(defs_view(s.defs@))),
{
    let defs = build_setup_defs(raw, prior);
    let ghost dv = defs_view(defs@);
    let mut include_answers: StrMap<bool> = StrMap::new();
    let mut occurrence_answers: StrMap<u32> = StrMap::new();
    let n = defs.len();
    let mut i: usize = 0;
    assert(dv.take(0) =~= Seq::<DynamicTaskDefView>::empty());
    while i < n
        invariant
            n == defs@.len(),
            dv == defs_view(defs@),
            i <= n,
            include_answers@ == map_of_pairs(inclusion_pairs(dv.take(i as int))),
            occurrence_answers@ == map_of_pairs(occurrence_pairs(dv.take(i as int))),
        decreases n - i,
    {
        let d = &defs[i];
        assert(dv.take(i + 1).drop_last() =~= dv.take(i as int));
        assert(dv.take(i + 1).last() == d@);
        let key = state_key(d.category.as_str(), d.task_name.as_str());
        match d.kind {
            DynamicKind::Include { default } => {
                include_answers.insert(key, default);
                assert(inclusion_pairs(dv.take(i + 1)).drop_last() =~= inclusion_pairs(dv.take(i as int)));
                assert(occurrence_pairs(dv.take(i + 1)) =~= occurrence_pairs(dv.take(i as int)));
            },
            DynamicKind::Occurrences { default } => {
                occurrence_answers.insert(key, default);
                assert(occurrence_pairs(dv.take(i + 1)).drop_last() =~= occurrence_pairs(dv.take(i as int)));
                assert(inclusion_pairs(dv.take(i + 1)) =~= inclusion_pairs(dv.take(i as int)));
            },
        }
        i += 1;
    }
    assert(dv.take(n as int) =~= dv);
    WeekSetupState { defs, include_answers, occurrence_answers }
}

/// The value after a click on the minus button of a stepper: one less,
/// unless already at the minimum.
pub fn stepper_decrement(value: u32, min: u32) -> (r: u32)
    ensures
        r == if value > min { (value - 1) as u32 } else { value },
{
    if value > min {
        value - 1
    } else {
        value
    }
}

/// The value after a click on the plus button of a stepper: one more,
/// unless already at the maximum.
pub fn stepper_increment(value: u32, max: u32) -> (r: u32)
    ensures
        r == if value < max { (value + 1) as u32 } else { value },
{
    if value < max {
        value + 1
    } else {
        value
    }
}

/// A stepper keeps a value that starts within its bounds within them.
pub proof fn lemma_stepper_bounds(value: u32, min: u32, max: u32)
    requires
        min <= value <= max,
    ensures
        min <= (if value > min { (value - 1) as u32 } else { value }) <= max,
        min <= (if value < max { (value + 1) as u32 } else { value }) <= max,
{
}


/// Every inclusion question proposes the answer that `proposed_inclusion`
/// gives for its key.
pub open spec fn proposals_follow(defs: Seq<DynamicTaskDefView>, prior: Option<WeekChoicesView>) -> bool {
    forall|i: int|
        0 <= i < defs.len() ==> match #[trigger] defs[i].kind {
            DynamicKind::Include { default } => default == proposed_inclusion(
                prior,
                spec_state_key(defs[i].category, defs[i].task_name),
            ),
            DynamicKind::Occurrences { .. } => true,
        }
}

proof fn lemma_category_defs_follow(cat: Seq<char>, ts: Seq<TaskConfigView>, prior: Option<WeekChoicesView>)
    ensures
        proposals_follow(category_setup_defs(cat, ts, prior), prior),
    decreases ts.len(),
{
    if ts.len() > 0 {
        lemma_category_defs_follow(cat, ts.drop_last(), prior);
        let a = category_setup_defs(cat, ts.drop_last(), prior);
        let b = option_seq(setup_def(cat, ts.last(), prior));
        let all = category_setup_defs(cat, ts, prior);
        assert forall|i: int| 0 <= i < all.len() implies match #[trigger] all[i].kind {
            DynamicKind::Include { default } => default == proposed_inclusion(
                prior,
                spec_state_key(all[i].category, all[i].task_name),
            ),
            DynamicKind::Occurrences { .. } => true,
        } by {
            if i < a.len() {
                assert(all[i] == a[i]);
            } else {
                assert(all[i] == b[i - a.len()]);
            }
        }
    }
}

proof fn lemma_setup_defs_follow(raw: Seq<CategoryConfigView>, prior: Option<WeekChoicesView>)
    ensures
        proposals_follow(setup_defs(raw, prior), prior),
    decreases raw.len(),
{
    if raw.len() > 0 {
        lemma_setup_defs_follow(raw.drop_last(), prior);
        lemma_category_defs_follow(raw.last().name, raw.last().tasks, prior);
        let a = setup_defs(raw.drop_last(), prior);
        let b = category_setup_defs(raw.last().name, raw.last().tasks, prior);
        let all = setup_defs(raw, prior);
        assert forall|i: int| 0 <= i < all.len() implies match #[trigger] all[i].kind {
            DynamicKind::Include { default } => default == proposed_inclusion(
                prior,
                spec_state_key(all[i].category, all[i].task_name),
            ),
            DynamicKind::Occurrences { .. } => true,
        } by {
            if i < a.len() {
                assert(all[i] == a[i]);
            } else {
                assert(all[i] == b[i - a.len()]);
            }
        }
    }
}

/// Each inclusion answer built from the questions is the proposal for its key.
proof fn lemma_inclusion_pairs_follow(defs: Seq<DynamicTaskDefView>, prior: Option<WeekChoicesView>)
    requires
        proposals_follow(defs, prior),
    ensures
        forall|j: int|
            0 <= j < inclusion_pairs(defs).len() ==> #[trigger] inclusion_pairs(defs)[j].1
                == proposed_inclusion(prior, inclusion_pairs(defs)[j].0),
    decreases defs.len(),
{
    if defs.len() > 0 {
        let d = defs.drop_last();
        assert forall|i: int| 0 <= i < d.len() implies match #[trigger] d[i].kind {
            DynamicKind::Include { default } => default == proposed_inclusion(
                prior,
                spec_state_key(d[i].category, d[i].task_name),
            ),
            DynamicKind::Occurrences { .. } => true,
        } by {
            assert(d[i] == defs[i]);
        }
        lemma_inclusion_pairs_follow(d, prior);
        let last = defs.len() - 1;
        assert(defs.last() == defs[last]);
        let pd = inclusion_pairs(d);
        let all = inclusion_pairs(defs);
        assert forall|j: int| 0 <= j < all.len() implies #[trigger] all[j].1 == proposed_inclusion(
            prior,
            all[j].0,
        ) by {
            if j < pd.len() {
                assert(all[j] == pd[j]);
            } else {
                match defs[last].kind {
                    DynamicKind::Include { default } => {
                        assert(all[j] == (spec_state_key(defs[last].category, defs[last].task_name), default));
                    },
                    DynamicKind::Occurrences { .. } => {},
                }
            }
        }
    }
}

/// A map built from pairs whose values are a function of their keys holds
/// that function's value.
proof fn lemma_map_of_pairs_follows(s: Seq<(Seq<char>, bool)>, prior: Option<WeekChoicesView>, k: Seq<char>)
    requires
        forall|j: int| 0 <= j < s.len() ==> #[trigger] s[j].1 == proposed_inclusion(prior, s[j].0),
        map_of_pairs(s).contains_key(k),
    ensures
        map_of_pairs(s)[k] == proposed_inclusion(prior, k),
    decreases s.len(),
{
    if s.len() > 0 && s.last().0 != k {
        let d = s.drop_last();
        assert forall|j: int| 0 <= j < d.len() implies #[trigger] d[j].1 == proposed_inclusion(prior, d[j].0) by {
            assert(d[j] == s[j]);
        }
        lemma_map_of_pairs_follows(d, prior, k);
    } else if s.len() > 0 {
        assert(s.last() == s[s.len() - 1]);
    }
}

/// A key held by some pair is in the map built from the pairs.
proof fn lemma_map_of_pairs_contains<V>(s: Seq<(Seq<char>, V)>, j: int)
    requires
        0 <= j < s.len(),
    ensures
        map_of_pairs(s).contains_key(s[j].0),
    decreases s.len(),
{
    if j < s.len() - 1 {
        assert(s.drop_last()[j] == s[j]);
        lemma_map_of_pairs_contains(s.drop_last(), j);
    }
}

/// The inclusion question of a task asked about for inclusion is among the
/// questions.
proof fn lemma_inclusion_pair_present(raw: Seq<CategoryConfigView>, prior: Option<WeekChoicesView>, ci: int, ti: int)
    requires
        0 <= ci < raw.len(),
        0 <= ti < raw[ci].tasks.len(),
        raw[ci].tasks[ti].ask_include,
    ensures
        map_of_pairs(inclusion_pairs(setup_defs(raw, prior))).contains_key(
            spec_state_key(raw[ci].name, raw[ci].tasks[ti].name),
        ),
    decreases raw.len(),
{
    let k = spec_state_key(raw[ci].name, raw[ci].tasks[ti].name);
    if ci < raw.len() - 1 {
        assert(raw.drop_last()[ci] == raw[ci]);
        lemma_inclusion_pair_present(raw.drop_last(), prior, ci, ti);
        lemma_inclusion_pairs_append(
            setup_defs(raw.drop_last(), prior),
            category_setup_defs(raw.last().name, raw.last().tasks, prior),
        );
        let a = inclusion_pairs(setup_defs(raw.drop_last(), prior));
        let b = inclusion_pairs(category_setup_defs(raw.last().name, raw.last().tasks, prior));
        lemma_map_of_pairs_key_kept(a, b, k);
    } else {
        let c = raw.last();
        assert(c == raw[ci]);
        lemma_category_inclusion_present(c.name, c.tasks, prior, ti);
        lemma_inclusion_pairs_append(
            setup_defs(raw.drop_last(), prior),
            category_setup_defs(c.name, c.tasks, prior),
        );
        let a = inclusion_pairs(setup_defs(raw.drop_last(), prior));
        let b = inclusion_pairs(category_setup_defs(c.name, c.tasks, prior));
        let j = choose|j: int| 0 <= j < b.len() && #[trigger] b[j].0 == k;
        assert((a + b)[a.len() + j] == b[j]);
        lemma_map_of_pairs_contains(a + b, a.len() + j);
    }
}

proof fn lemma_category_inclusion_present(cat: Seq<char>, ts: Seq<TaskConfigView>, prior: Option<WeekChoicesView>, ti: int)
    requires
        0 <= ti < ts.len(),
        ts[ti].ask_include,
    ensures
        exists|j: int|
            0 <= j < inclusion_pairs(category_setup_defs(cat, ts, prior)).len() && #[trigger] inclusion_pairs(
                category_setup_defs(cat, ts, prior),
            )[j].0 == spec_state_key(cat, ts[ti].name),
    decreases ts.len(),
{
    let k = spec_state_key(cat, ts[ti].name);
    let a = category_setup_defs(cat, ts.drop_last(), prior);
    let b = option_seq(setup_def(cat, ts.last(), prior));
    assert(category_setup_defs(cat, ts, prior) == a + b);
    lemma_inclusion_pairs_append(a, b);
    let pa = inclusion_pairs(a);
    let pb = inclusion_pairs(b);
    assert(inclusion_pairs(category_setup_defs(cat, ts, prior)) == pa + pb);
    if ti < ts.len() - 1 {
        assert(ts.drop_last()[ti] == ts[ti]);
        lemma_category_inclusion_present(cat, ts.drop_last(), prior, ti);
        let j = choose|j: int| 0 <= j < pa.len() && #[trigger] pa[j].0 == k;
        assert((pa + pb)[j] == pa[j]);
    } else {
        assert(ts.last() == ts[ti]);
        let def = setup_def(cat, ts.last(), prior).unwrap();
        assert(b == seq![def]);
        assert(b.drop_last() =~= Seq::<DynamicTaskDefView>::empty());
        assert(inclusion_pairs(b.drop_last()) =~= Seq::<(Seq<char>, bool)>::empty());
        assert(b.last() == def);
        assert(def.category == cat && def.task_name == ts[ti].name);
        assert(pb[0].0 == k);
        assert((pa + pb)[pa.len() as int] == pb[0]);
    }
}

/// The inclusion answers of two runs of questions put together are those
/// of each, in order.
proof fn lemma_inclusion_pairs_append(a: Seq<DynamicTaskDefView>, b: Seq<DynamicTaskDefView>)
    ensures
        inclusion_pairs(a + b) == inclusion_pairs(a) + inclusion_pairs(b),
    decreases b.len(),
{
    if b.len() == 0 {
        assert(a + b =~= a);
        assert(inclusion_pairs(a) + inclusion_pairs(b) =~= inclusion_pairs(a));
    } else {
        lemma_inclusion_pairs_append(a, b.drop_last());
        assert((a + b).drop_last() =~= a + b.drop_last());
        assert((a + b).last() == b.last());
        let tail = match b.last().kind {
            DynamicKind::Include { default } => seq![(spec_state_key(b.last().category, b.last().task_name), default)],
            DynamicKind::Occurrences { .. } => Seq::<(Seq<char>, bool)>::empty(),
        };
        assert(inclusion_pairs(a) + inclusion_pairs(b.drop_last()) + tail =~= inclusion_pairs(a) + (
        inclusion_pairs(b.drop_last()) + tail));
    }
}

/// A key of the first pairs stays in the map when more pairs follow.
proof fn lemma_map_of_pairs_key_kept<V>(a: Seq<(Seq<char>, V)>, b: Seq<(Seq<char>, V)>, k: Seq<char>)
    requires
        map_of_pairs(a).contains_key(k),
    ensures
        map_of_pairs(a + b).contains_key(k),
    decreases b.len(),
{
    if b.len() == 0 {
        assert(a + b =~= a);
    } else {
        lemma_map_of_pairs_key_kept(a, b.drop_last(), k);
        assert((a + b).drop_last() =~= a + b.drop_last());
    }
}

/// A task asked about for inclusion, "one week out of two": the weekly
/// questionnaire starts with the opposite of last week's answer, and when
/// those answers are kept, the next questionnaire proposes the opposite
/// again, so the task alternates week after week.
pub proof fn lemma_inclusion_alternates(
    raw: Seq<CategoryConfigView>,
    prior: Option<WeekChoicesView>,
    occurrences: Map<Seq<char>, u32>,
    ci: int,
    ti: int,
)
    requires
        0 <= ci < raw.len(),
        0 <= ti < raw[ci].tasks.len(),
        raw[ci].tasks[ti].ask_include,
    ensures
        ({
            let k = spec_state_key(raw[ci].name, raw[ci].tasks[ti].name);
            let answers = map_of_pairs(inclusion_pairs(setup_defs(raw, prior)));
            &&& answers.contains_key(k)
            &&& answers[k] == proposed_inclusion(prior, k)
            &&& proposed_inclusion(Some(WeekChoicesView { inclusion: answers, occurrences }), k)
                == !proposed_inclusion(prior, k)
        }),
{
    let k = spec_state_key(raw[ci].name, raw[ci].tasks[ti].name);
    lemma_inclusion_pair_present(raw, prior, ci, ti);
    lemma_setup_defs_follow(raw, prior);
    lemma_inclusion_pairs_follow(setup_defs(raw, prior), prior);
    lemma_map_of_pairs_follows(inclusion_pairs(setup_defs(raw, prior)), prior, k);
}

/// Every question asked of a category's task is among its questions.
proof fn lemma_category_setup_defs_has(
    cat: Seq<char>,
    ts: Seq<TaskConfigView>,
    prior: Option<WeekChoicesView>,
    i: int,
)
    requires
        0 <= i < ts.len(),
        setup_def(cat, ts[i], prior) is Some,
    ensures
        exists|j: int|
            0 <= j < category_setup_defs(cat, ts, prior).len() && #[trigger] category_setup_defs(cat, ts, prior)[j]
                == setup_def(cat, ts[i], prior).unwrap(),
    decreases ts.len(),
{
    let d = ts.drop_last();
    let m = category_setup_defs(cat, ts, prior);
    let md = category_setup_defs(cat, d, prior);
    assert(m == md + option_seq(setup_def(cat, ts.last(), prior)));
    if i == ts.len() - 1 {
        assert(m[md.len() as int] == setup_def(cat, ts[i], prior).unwrap());
    } else {
        assert(d[i] == ts[i]);
        lemma_category_setup_defs_has(cat, d, prior, i);
        let j = choose|j: int| 0 <= j < md.len() && #[trigger] md[j] == setup_def(cat, d[i], prior).unwrap();
        assert(m[j] == md[j]);
    }
}

/// Every question asked of a configured task is in the questionnaire.
proof fn lemma_setup_defs_has(raw: Seq<CategoryConfigView>, prior: Option<WeekChoicesView>, ci: int, ti: int)
    requires
        0 <= ci < raw.len(),
        0 <= ti < raw[ci].tasks.len(),
        setup_def(raw[ci].name, raw[ci].tasks[ti], prior) is Some,
    ensures
        exists|j: int|
            0 <= j < setup_defs(raw, prior).len() && #[trigger] setup_defs(raw, prior)[j] == setup_def(
                raw[ci].name,
                raw[ci].tasks[ti],
                prior,
            ).unwrap(),
    decreases raw.len(),
{
    let d = raw.drop_last();
    let m = setup_defs(raw, prior);
    let md = setup_defs(d, prior);
    let last = category_setup_defs(raw.last().name, raw.last().tasks, prior);
    assert(m == md + last);
    let q = setup_def(raw[ci].name, raw[ci].tasks[ti], prior).unwrap();
    if ci == raw.len() - 1 {
        lemma_category_setup_defs_has(raw.last().name, raw.last().tasks, prior, ti);
        let j = choose|j: int| 0 <= j < last.len() && #[trigger] last[j] == q;
        assert(m[md.len() + j] == q);
    } else {
        assert(d[ci] == raw[ci]);
        lemma_setup_defs_has(d, prior, ci, ti);
        let j = choose|j: int| 0 <= j < md.len() && #[trigger] md[j] == q;
        assert(m[j] == q);
    }
}

/// What the weekly questionnaire proposes. A task asked about for its
/// inclusion is asked with the opposite of last week's answer, and with
/// "included" when there is no answer for it (no answers at all, or a task
/// added since). A task asked about for its number of boxes is asked with
/// last week's answer, or with its configured number (at least 1) when
/// there is none.
pub proof fn lemma_questionnaire_proposals(
    raw: Seq<CategoryConfigView>,
    prior: Option<WeekChoicesView>,
    ci: int,
    ti: int,
)
    requires
        0 <= ci < raw.len(),
        0 <= ti < raw[ci].tasks.len(),
        raw[ci].tasks[ti].ask_include || raw[ci].tasks[ti].ask_occurrences,
    ensures
        ({
            let t = raw[ci].tasks[ti];
            let key = spec_state_key(raw[ci].name, t.name);
            let kind = if t.ask_include {
                DynamicKind::Include {
                    default: if prior matches Some(p) && p.inclusion.contains_key(key) {
                        !prior->0.inclusion[key]
                    } else {
                        true
                    },
                }
            } else {
                DynamicKind::Occurrences {
                    default: if prior matches Some(p) && p.occurrences.contains_key(key) {
                        prior->0.occurrences[key]
                    } else if t.occurrences >= 1 {
                        t.occurrences
                    } else {
                        1
                    },
                }
            };
            exists|j: int|
                0 <= j < setup_defs(raw, prior).len() && #[trigger] setup_defs(raw, prior)[j] == (DynamicTaskDefView {
                    category: raw[ci].name,
                    task_name: t.name,
                    kind,
                })
        }),
{
    lemma_setup_defs_has(raw, prior, ci, ti);
}

} // verus!
