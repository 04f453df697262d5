use vstd::prelude::*;

use crate::config::{CategoryConfig, category_configs_view, count_in_progress_map, spec_count_in_progress_map};
use crate::history::{CategorySummary, CategorySummaryView, WeekRecord, WeekRecordView, summaries_view};
use crate::keys::{key_category, spec_key_category};
use crate::model::{
    Category, CategoryView, categories_view, category_progress, count_true, lemma_count_true_le_len,
    lemma_week_all_boxes_prefix,
    lemma_week_counts, tasks_all_boxes, tasks_boxes, tasks_ticks, week_all_boxes,
    week_boxes, week_ticks,
};
use crate::strmap::{StrMap, lemma_entries_map_at};

verus! {

/// The summary of one category of the current week.
pub open spec fn category_summary(c: CategoryView) -> CategorySummaryView {
    CategorySummaryView {
        name: c.name,
        done: tasks_ticks(c.tasks, false) as usize,
        total: tasks_boxes(c.tasks, false) as usize,
    }
}

/// The record of the week with categories `cs`, starting at `week_start`.
pub open spec fn week_record_of(cs: Seq<CategoryView>, week_start: Seq<char>) -> WeekRecordView {
    WeekRecordView {
        week_start,
        total: week_boxes(cs, false) as usize,
        done: week_ticks(cs, false) as usize,
        categories: cs.map_values(|c: CategoryView| category_summary(c)),
    }
}

/// The record of the current week as it stands: for each category, and
/// overall, the ticked boxes and the boxes of its counted tasks.
pub fn summarize_categories(cats: &Vec<Category>, week_start: &str) -> (r: WeekRecord)
    requires
        week_all_boxes(categories_view(cats@)) <= usize::MAX,
    ensures
        r@.week_start == week_start@,
        r.total == week_boxes(categories_view(cats@), false),
        r.done == week_ticks(categories_view(cats@), false),
        r@.categories == categories_view(cats@).map_values(|c: CategoryView| category_summary(c)),
        r@ == week_record_of(categories_view(cats@), week_start@),
{
    let ghost cv = categories_view(cats@);
    let mut total: usize = 0;
    let mut done: usize = 0;
    let mut out: Vec<CategorySummary> = Vec::new();
    let n = cats.len();
    let mut i: usize = 0;
    while i < n
        invariant
            n == cats@.len(),
            cv == categories_view(cats@),
            week_all_boxes(cv) <= usize::MAX,
            i <= n,
            done == week_ticks(cv.take(i as int), false),
            total == week_boxes(cv.take(i as int), false),
            out@.len() == i,
            summaries_view(out@) == cv.take(i as int).map_values(|c: CategoryView| category_summary(c)),
        decreases n - i,
    {
        let c = &cats[i];
        proof {
            assert(cv.take(i + 1).drop_last() =~= cv.take(i as int));
            assert(cv.take(i + 1).last() == c@);
            lemma_week_counts(cv.take(i + 1), false);
            lemma_week_all_boxes_prefix(cv, i + 1);
            assert(week_all_boxes(cv.take(i + 1)) == week_all_boxes(cv.take(i as int))
                + tasks_all_boxes(c@.tasks));
        }
        let (d, t) = category_progress(c, false);
        total = total + t;
        done = done + d;
        let ghost prev = out@;
        out.push(CategorySummary { name: c.name.clone(), done: d, total: t });
        proof {
            assert(summaries_view(out@) =~= cv.take(i + 1).map_values(
                |c: CategoryView| category_summary(c),
            )) by {
                assert forall|k: int| 0 <= k < i + 1 implies #[trigger] summaries_view(out@)[k]
                    == cv.take(i + 1).map_values(|c: CategoryView| category_summary(c))[k] by {
                    if k < i {
                        assert(out@[k] == prev[k]);
                        assert(summaries_view(prev)[k] == cv.take(i as int).map_values(
                            |c: CategoryView| category_summary(c),
                        )[k]);
                    }
                }
            }
        }
        i += 1;
    }
    assert(cv.take(n as int) =~= cv);
    WeekRecord { week_start: String::from_str(week_start), total, done, categories: out }
}

/// Whether a saved task counts in the progress: the configuration says so,
/// and a task the configuration no longer holds counts.
pub open spec fn counts_in_progress(cip: Map<Seq<char>, bool>, key: Seq<char>) -> bool {
    if cip.contains_key(key) {
        cip[key]
    } else {
        true
    }
}

/// The counted boxes of saved states.
pub open spec fn state_boxes(es: Seq<(Seq<char>, Vec<bool>)>, cip: Map<Seq<char>, bool>) -> nat
    decreases es.len(),
{
    if es.len() == 0 {
        0
    } else {
        state_boxes(es.drop_last(), cip) + if counts_in_progress(cip, es.last().0) {
            es.last().1@.len()
        } else {
            0
        }
    }
}

/// The ticked counted boxes of saved states.
pub open spec fn state_ticks(es: Seq<(Seq<char>, Vec<bool>)>, cip: Map<Seq<char>, bool>) -> nat
    decreases es.len(),
{
    if es.len() == 0 {
        0
    } else {
        state_ticks(es.drop_last(), cip) + if counts_in_progress(cip, es.last().0) {
            count_true(es.last().1@)
        } else {
            0
        }
    }
}

/// All boxes of saved states.
pub open spec fn state_all_boxes(es: Seq<(Seq<char>, Vec<bool>)>) -> nat
    decreases es.len(),
{
    if es.len() == 0 {
        0
    } else {
        state_all_boxes(es.drop_last()) + es.last().1@.len()
    }
}

/// For each category named by the saved keys, the ticked counted boxes and
/// the counted boxes of its saved tasks. A key without `::` belongs to no
/// category.
pub open spec fn state_category_sums(es: Seq<(Seq<char>, Vec<bool>)>, cip: Map<Seq<char>, bool>) -> Map<
    Seq<char>,
    (nat, nat),
>
    decreases es.len(),
{
    if es.len() == 0 {
        Map::empty()
    } else {
        let m = state_category_sums(es.drop_last(), cip);
        let e = es.last();
        if counts_in_progress(cip, e.0) {
            match spec_key_category(e.0) {
                Some(c) => {
                    let before = if m.contains_key(c) {
                        m[c]
                    } else {
                        (0nat, 0nat)
                    };
                    m.insert(c, (before.0 + count_true(e.1@), before.1 + e.1@.len()))
                },
                None => m,
            }
        } else {
            m
        }
    }
}

pub open spec fn pair_map_view(m: Map<Seq<char>, (usize, usize)>) -> Map<Seq<char>, (nat, nat)> {
    m.map_values(|p: (usize, usize)| (p.0 as nat, p.1 as nat))
}

proof fn lemma_state_counts(es: Seq<(Seq<char>, Vec<bool>)>, cip: Map<Seq<char>, bool>)
    ensures
        state_ticks(es, cip) <= state_boxes(es, cip),
        state_boxes(es, cip) <= state_all_boxes(es),
    decreases es.len(),
{
    if es.len() > 0 {
        lemma_state_counts(es.drop_last(), cip);
        lemma_count_true_le_len(es.last().1@);
    }
}

pub(crate) proof fn lemma_state_all_boxes_prefix(es: Seq<(Seq<char>, Vec<bool>)>, i: int)
    requires
        0 <= i <= es.len(),
    ensures
        state_all_boxes(es.take(i)) <= state_all_boxes(es),
    decreases es.len(),
{
    if i < es.len() {
        assert(es.drop_last().take(i) =~= es.take(i));
        lemma_state_all_boxes_prefix(es.drop_last(), i);
    } else {
        assert(es.take(i) =~= es);
    }
}

/// The number of ticked boxes of a list.
fn ticked(v: &Vec<bool>) -> (n: usize)
    ensures
        n == count_true(v@),
{
    let len = v.len();
    let mut n: usize = 0;
    let mut i: usize = 0;
    while i < len
        invariant
            len == v@.len(),
            i <= len,
            n == count_true(v@.take(i as int)),
            n <= i,
        decreases len - i,
    {
        assert(v@.take(i + 1).drop_last() =~= v@.take(i as int));
        if v[i] {
            n += 1;
        }
        i += 1;
    }
    assert(v@.take(len as int) =~= v@);
    n
}

/// `r` is the record of a past week from its saved state `es`: its
/// counted boxes and ticks overall, and one summary per category named by
/// the saved keys, with that category's sums, no category twice.
pub open spec fn is_state_summary(
    r: WeekRecordView,
    es: Seq<(Seq<char>, Vec<bool>)>,
    cip: Map<Seq<char>, bool>,
    week_start: Seq<char>,
) -> bool {
    let sums = state_category_sums(es, cip);
    &&& r.week_start == week_start
    &&& r.total == state_boxes(es, cip)
    &&& r.done == state_ticks(es, cip)
    &&& forall|i: int, j: int|
        0 <= i < r.categories.len() && 0 <= j < r.categories.len() && i != j
            ==> #[trigger] r.categories[i].name != #[trigger] r.categories[j].name
    &&& forall|i: int|
        0 <= i < r.categories.len() ==> sums.contains_key(#[trigger] r.categories[i].name)
            && sums[r.categories[i].name] == (r.categories[i].done as nat, r.categories[i].total as nat)
    &&& forall|k: Seq<char>|
        #[trigger] sums.contains_key(k) ==> exists|i: int|
            0 <= i < r.categories.len() && r.categories[i].name == k
}

/// The record of a past week from its saved state: the ticked boxes and the
/// boxes of the saved tasks that count in the progress (by the current
/// configuration; a task it no longer holds counts), overall and summed by
/// the category named before `::` in each key, each category once.
pub fn summarize_state(tasks: &StrMap<Vec<bool>>, raw: &Vec<CategoryConfig>, week_start: &str) -> (r: WeekRecord)
    requires
        state_all_boxes(tasks.spec_entries()) <= usize::MAX,
    ensures
        is_state_summary(
            r@,
            tasks.spec_entries(),
            spec_count_in_progress_map(category_configs_view(raw@)),
            week_start@,
        ),
{
    let cip = count_in_progress_map(raw);
    let ghost cm = spec_count_in_progress_map(category_configs_view(raw@));
    let ghost es = tasks.spec_entries();
    let mut acc: StrMap<(usize, usize)> = StrMap::new();
    let mut total: usize = 0;
    let mut done: usize = 0;
    let n = tasks.len();
    let mut i: usize = 0;
    proof {
        assert(pair_map_view(acc@) =~= Map::<Seq<char>, (nat, nat)>::empty());
    }
    while i < n
        invariant
            n == es.len(),
            es == tasks.spec_entries(),
            cm == cip@,
            state_all_boxes(es) <= usize::MAX,
            i <= n,
            total == state_boxes(es.take(i as int), cm),
            done == state_ticks(es.take(i as int), cm),
            pair_map_view(acc@) == state_category_sums(es.take(i as int), cm),
            forall|k: Seq<char>| #[trigger] acc@.contains_key(k) ==> acc@[k].0 <= acc@[k].1 <= total,
        decreases n - i,
    {
        let key = tasks.key_at(i);
        let occs = tasks.value_at(i);
        proof {
            assert(es.take(i + 1).drop_last() =~= es.take(i as int));
            assert(es.take(i + 1).last() == es[i as int]);
            lemma_state_counts(es.take(i + 1), cm);
            lemma_state_all_boxes_prefix(es, i + 1);
        }
        let counted = match cip.get(key) {
            Some(b) => *b,
            None => true,
        };
        if counted {
            let t = occs.len();
            let d = ticked(occs);
            proof {
                lemma_count_true_le_len(occs@);
            }
            total = total + t;
            done = done + d;
            match key_category(key) {
                Some(cat) => {
                    let before = match acc.get(&cat) {
                        Some(p) => *p,
                        None => (0usize, 0usize),
                    };
                    let ghost old_acc = acc@;
                    acc.insert(cat, (before.0 + d, before.1 + t));
                    proof {
                        assert(pair_map_view(acc@) =~= state_category_sums(es.take(i + 1), cm));
                    }
                },
                None => {},
            }
        }
        i += 1;
    }
    assert(es.take(n as int) =~= es);
    let mut out: Vec<CategorySummary> = Vec::new();
    let m = acc.len();
    let mut j: usize = 0;
    while j < m
        invariant
            m == acc.spec_entries().len(),
            j <= m,
            out@.len() == j,
            forall|k: int|
                0 <= k < j ==> #[trigger] out@[k]@ == (CategorySummaryView {
                    name: acc.spec_entries()[k].0,
                    done: acc.spec_entries()[k].1.0,
                    total: acc.spec_entries()[k].1.1,
                }),
        decreases m - j,
    {
        let name = acc.key_at(j).clone();
        let p = *acc.value_at(j);
        out.push(CategorySummary { name, done: p.0, total: p.1 });
        j += 1;
    }
    let r = WeekRecord { week_start: String::from_str(week_start), total, done, categories: out };
    proof {
        use_type_invariant(&acc);
        let ae = acc.spec_entries();
        let sums = state_category_sums(es, cm);
        assert forall|a: int| 0 <= a < r@.categories.len() implies sums.contains_key(
            #[trigger] r@.categories[a].name,
        ) && sums[r@.categories[a].name] == (r@.categories[a].done as nat, r@.categories[a].total as nat) by {
            assert(r@.categories[a] == out@[a]@);
            lemma_entries_map_at(ae, a);
        }
        assert forall|a: int, b: int|
            0 <= a < r@.categories.len() && 0 <= b < r@.categories.len() && a != b implies #[trigger] r@.categories[a].name
            != #[trigger] r@.categories[b].name by {
            assert(r@.categories[a] == out@[a]@);
            assert(r@.categories[b] == out@[b]@);
        }
        assert forall|k: Seq<char>| #[trigger] sums.contains_key(k) implies exists|a: int|
            0 <= a < r@.categories.len() && r@.categories[a].name == k by {
            assert(acc@.contains_key(k));
            let a = choose|a: int| 0 <= a < ae.len() && #[trigger] ae[a].0 == k;
            assert(r@.categories[a] == out@[a]@);
        }
    }
    r
}

} // verus!
