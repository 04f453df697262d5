use chrono::{Datelike, NaiveDate};

use prepaweek::appearance::{category_color, palette_color, Prefs, Rgb};
use prepaweek::calendar::{monday_of, week_start_text, FIRST_DAY, FIRST_MONDAY, LAST_DAY};
use prepaweek::config::{
    config_file_text, count_in_progress_map, default_occurrences, default_true, fallback_raw_categories,
    has_dynamic_tasks, CategoryConfig, TaskConfig, CONFIG_HEADER,
};
use prepaweek::history::{History, WeekRecord, HISTORY_LIMIT};
use prepaweek::keys::{key_category, state_key};
use prepaweek::model::{
    box_count, category_progress, clear_boxes, materialize_categories, occurrence_state, restore_occurrences,
    week_progress, Category, Task, WeekChoices,
};
use prepaweek::planner::{load_all, state_box_count, state_snapshot, Planner, StateFile};
use prepaweek::rng::Rng;
use prepaweek::setup::{build_setup_defs, new_week_setup_state, stepper_decrement, stepper_increment, DynamicKind};
use prepaweek::strmap::StrMap;
use prepaweek::summary::{summarize_categories, summarize_state};
use prepaweek::textorder::text_less;

fn task(name: &str, occurrences: u32) -> TaskConfig {
    TaskConfig {
        name: name.to_string(),
        occurrences,
        count_in_progress: true,
        ask_include: false,
        ask_occurrences: false,
        weekday_only: false,
    }
}

fn category(name: &str, tasks: Vec<TaskConfig>) -> CategoryConfig {
    CategoryConfig { name: name.to_string(), icon: "📚".to_string(), tasks }
}

fn day(y: i32, m: u32, d: u32) -> i32 {
    NaiveDate::from_ymd_opt(y, m, d).unwrap().num_days_from_ce()
}

fn boxes_of(cats: &[Category]) -> Vec<Vec<Vec<bool>>> {
    cats.iter().map(|c| c.tasks.iter().map(|t| t.occurrences.clone()).collect()).collect()
}

fn record(week_start: &str, done: usize, total: usize) -> WeekRecord {
    WeekRecord { week_start: week_start.to_string(), total, done, categories: Vec::new() }
}

fn starts(h: &History) -> Vec<String> {
    h.weeks().iter().map(|w| w.week_start.clone()).collect()
}

fn sample_config() -> Vec<CategoryConfig> {
    let mut sport = task("Sport", 3);
    sport.ask_occurrences = true;
    let mut vocab = task("Vocabulaire", 1);
    vocab.ask_include = true;
    let mut bonus = task("Lecture", 2);
    bonus.count_in_progress = false;
    let mut dm = task("DM", 1);
    dm.weekday_only = true;
    vec![category("Maths", vec![dm, task("Colle", 2)]), category("Perso", vec![sport, vocab, bonus])]
}

#[test]
fn state_key_joins_with_separator() {
    assert_eq!(state_key("Maths", "DM"), "Maths::DM");
    assert_eq!(state_key("", ""), "::");
}

#[test]
fn key_category_takes_text_before_first_separator() {
    assert_eq!(key_category(&"Maths::DM".to_string()), Some("Maths".to_string()));
    assert_eq!(key_category(&"a:b::c::d".to_string()), Some("a:b".to_string()));
    assert_eq!(key_category(&"::x".to_string()), Some(String::new()));
    assert_eq!(key_category(&"no separator".to_string()), None);
    assert_eq!(key_category(&"a:".to_string()), None);
    let key = state_key("Physique", "TD");
    assert_eq!(key_category(&key), Some("Physique".to_string()));
}

#[test]
fn text_order_is_lexicographic() {
    assert!(text_less(&"2024-01-01".to_string(), &"2024-01-08".to_string()));
    assert!(!text_less(&"2024-01-08".to_string(), &"2024-01-01".to_string()));
    assert!(text_less(&"abc".to_string(), &"abcd".to_string()));
    assert!(!text_less(&"abc".to_string(), &"abc".to_string()));
    assert!(text_less(&"é".to_string(), &"ê".to_string()));
}

#[test]
fn configuration_defaults() {
    assert_eq!(default_occurrences(), 1);
    assert!(default_true());
    let cats = fallback_raw_categories();
    assert_eq!(cats.len(), 1);
    assert_eq!(cats[0].name, "Exemple");
    assert_eq!(cats[0].icon, "⚠");
    assert_eq!(cats[0].tasks.len(), 1);
    assert_eq!(cats[0].tasks[0].occurrences, 1);
    assert!(cats[0].tasks[0].count_in_progress);
    assert!(!cats[0].tasks[0].ask_include && !cats[0].tasks[0].ask_occurrences && !cats[0].tasks[0].weekday_only);
    assert!(cats[0].tasks[0].name.starts_with("Crée/complète ton fichier config.toml"));
}

#[test]
fn config_text_puts_header_first() {
    let text = config_file_text("[[categories]]\n");
    assert_eq!(text, format!("{CONFIG_HEADER}\n[[categories]]\n"));
    assert!(text.starts_with("# Configuration de PrepaWeek\n"));
}

#[test]
fn dynamic_tasks_are_detected() {
    assert!(has_dynamic_tasks(&sample_config()));
    assert!(!has_dynamic_tasks(&vec![category("Maths", vec![task("DM", 1)])]));
    assert!(!has_dynamic_tasks(&Vec::new()));
}

#[test]
fn count_in_progress_map_last_task_wins() {
    let mut bonus = task("DM", 1);
    bonus.count_in_progress = false;
    let raw = vec![category("Maths", vec![task("DM", 1), bonus]), category("Perso", vec![task("Sport", 1)])];
    let m = count_in_progress_map(&raw);
    assert_eq!(m.len(), 2);
    assert_eq!(m.get(&"Maths::DM".to_string()), Some(&false));
    assert_eq!(m.get(&"Perso::Sport".to_string()), Some(&true));
    assert_eq!(m.get(&"Perso::Other".to_string()), None);
}

#[test]
fn strmap_insert_replaces_and_appends() {
    let mut m: StrMap<u32> = StrMap::new();
    m.insert("a".to_string(), 1);
    m.insert("b".to_string(), 2);
    m.insert("a".to_string(), 3);
    assert_eq!(m.len(), 2);
    assert_eq!(m.key_at(0), "a");
    assert_eq!(*m.value_at(0), 3);
    assert_eq!(m.get(&"b".to_string()), Some(&2));
    let c = m.copy();
    assert_eq!(c.get(&"a".to_string()), Some(&3));
}

#[test]
fn task_counts_its_boxes() {
    let t = Task {
        name: "DM".to_string(),
        occurrences: vec![true, false, true],
        count_in_progress: true,
        weekday_only: false,
    };
    assert_eq!(t.total(), 3);
    assert_eq!(t.done(), 2);
}

#[test]
fn materialize_without_answers() {
    let cats = materialize_categories(&sample_config(), None);
    assert_eq!(cats.len(), 2);
    let names: Vec<&str> = cats[1].tasks.iter().map(|t| t.name.as_str()).collect();
    assert_eq!(names, vec!["Sport", "Vocabulaire", "Lecture"]);
    assert_eq!(cats[1].tasks[0].occurrences, vec![false; 3]);
    assert_eq!(cats[1].tasks[1].occurrences, vec![false]);
    assert_eq!(cats[0].tasks[0].occurrences, vec![false]);
    assert!(cats[0].tasks[0].weekday_only);
    assert!(!cats[1].tasks[2].count_in_progress);
}

#[test]
fn materialize_with_answers() {
    let mut choices = WeekChoices::new();
    choices.inclusion.insert("Perso::Vocabulaire".to_string(), false);
    choices.occurrences.insert("Perso::Sport".to_string(), 5);
    let cats = materialize_categories(&sample_config(), Some(&choices));
    let names: Vec<&str> = cats[1].tasks.iter().map(|t| t.name.as_str()).collect();
    assert_eq!(names, vec!["Sport", "Lecture"]);
    assert_eq!(cats[1].tasks[0].occurrences.len(), 5);

    let mut zero = WeekChoices::new();
    zero.occurrences.insert("Perso::Sport".to_string(), 0);
    zero.inclusion.insert("Perso::Vocabulaire".to_string(), true);
    let cats = materialize_categories(&sample_config(), Some(&zero));
    let names: Vec<&str> = cats[1].tasks.iter().map(|t| t.name.as_str()).collect();
    assert_eq!(names, vec!["Vocabulaire", "Lecture"]);
}

#[test]
fn materialize_gives_at_least_one_box() {
    let cats = materialize_categories(&vec![category("Maths", vec![task("DM", 0)])], None);
    assert_eq!(cats[0].tasks[0].occurrences, vec![false]);
    let mut var = task("Sport", 0);
    var.ask_occurrences = true;
    let cats = materialize_categories(&vec![category("Perso", vec![var])], None);
    assert_eq!(cats[0].tasks[0].occurrences, vec![false]);
}

#[test]
fn materialize_included_task_keeps_its_boxes() {
    let mut vocab = task("Vocabulaire", 3);
    vocab.ask_include = true;
    let raw = vec![category("Anglais", vec![vocab])];
    let cats = materialize_categories(&raw, None);
    assert_eq!(cats[0].tasks[0].occurrences, vec![false; 3]);
    let mut yes = WeekChoices::new();
    yes.inclusion.insert("Anglais::Vocabulaire".to_string(), true);
    let cats = materialize_categories(&raw, Some(&yes));
    assert_eq!(cats[0].tasks[0].occurrences, vec![false; 3]);
    let mut none = task("Vocabulaire", 0);
    none.ask_include = true;
    let cats = materialize_categories(&vec![category("Anglais", vec![none])], None);
    assert_eq!(cats[0].tasks[0].occurrences, vec![false]);
}

#[test]
fn restore_uses_saved_boxes_position_by_position() {
    let cats = materialize_categories(&sample_config(), None);
    let mut saved: StrMap<Vec<bool>> = StrMap::new();
    saved.insert("Perso::Sport".to_string(), vec![true]);
    saved.insert("Maths::Colle".to_string(), vec![true, true, true]);
    let restored = restore_occurrences(&cats, &saved);
    assert_eq!(restored[1].tasks[0].occurrences, vec![true, false, false]);
    assert_eq!(restored[0].tasks[1].occurrences, vec![true, true]);
    assert_eq!(restored[0].tasks[0].occurrences, vec![false]);
}

#[test]
fn saved_boxes_come_back_after_clearing() {
    let mut cats = materialize_categories(&sample_config(), None);
    cats[0].tasks[1].occurrences[1] = true;
    cats[1].tasks[0].occurrences[0] = true;
    let saved = occurrence_state(&cats);
    assert_eq!(saved.len(), 5);
    assert_eq!(saved.get(&"Maths::Colle".to_string()), Some(&vec![false, true]));
    let cleared = clear_boxes(&cats);
    assert_eq!(week_progress(&cleared, false).0, 0);
    let back = restore_occurrences(&cleared, &saved);
    assert_eq!(boxes_of(&back), boxes_of(&cats));
}

#[test]
fn progress_counts_counted_tasks_only() {
    let mut cats = materialize_categories(&sample_config(), None);
    cats[0].tasks[0].occurrences[0] = true;
    cats[1].tasks[2].occurrences[0] = true;
    cats[1].tasks[0].occurrences[2] = true;
    assert_eq!(category_progress(&cats[0], false), (1, 3));
    assert_eq!(category_progress(&cats[1], false), (1, 4));
    assert_eq!(week_progress(&cats, false), (2, 7));
    assert_eq!(week_progress(&cats, true), (1, 1));
    assert_eq!(box_count(&cats), Some(9));
}

#[test]
fn monday_of_goes_back_to_monday() {
    let wed = day(2024, 1, 3);
    assert_eq!(monday_of(wed), day(2024, 1, 1));
    assert_eq!(monday_of(day(2024, 1, 1)), day(2024, 1, 1));
    assert_eq!(monday_of(day(2024, 1, 7)), day(2024, 1, 1));
    assert_eq!(monday_of(day(2024, 1, 8)), day(2024, 1, 8));
    assert_eq!(monday_of(monday_of(day(2023, 12, 31))), day(2023, 12, 25));
    assert_eq!(week_start_text(wed), "2024-01-01");
    assert_eq!(week_start_text(day(2025, 3, 2)), "2025-02-24");
}

#[test]
fn calendar_bounds_are_chrono_bounds() {
    assert!(NaiveDate::from_num_days_from_ce_opt(FIRST_DAY).is_some());
    assert!(NaiveDate::from_num_days_from_ce_opt(FIRST_DAY - 1).is_none());
    assert!(NaiveDate::from_num_days_from_ce_opt(LAST_DAY).is_some());
    assert!(NaiveDate::from_num_days_from_ce_opt(LAST_DAY + 1).is_none());
    let first_monday = NaiveDate::from_num_days_from_ce_opt(FIRST_MONDAY).unwrap();
    assert_eq!(first_monday.weekday().num_days_from_monday(), 0);
    assert_eq!(FIRST_MONDAY - FIRST_DAY, 4);
    assert_eq!(monday_of(FIRST_MONDAY), FIRST_MONDAY);
    assert_eq!(monday_of(LAST_DAY), LAST_DAY);
}

#[test]
fn archive_inserts_in_order_and_replaces() {
    let mut h = History::new();
    assert!(h.archive_week(record("2024-01-08", 1, 2)));
    assert!(h.archive_week(record("2024-01-01", 2, 2)));
    assert!(h.archive_week(record("2024-01-15", 0, 3)));
    assert_eq!(starts(&h), vec!["2024-01-01", "2024-01-08", "2024-01-15"]);
    assert!(h.archive_week(record("2024-01-08", 2, 2)));
    assert_eq!(h.len(), 3);
    let i = h.find_week(&"2024-01-08".to_string()).unwrap();
    assert_eq!(h.weeks()[i].done, 2);
}

#[test]
fn archive_twice_is_archive_once() {
    let mut h = History::from_records(vec![record("2024-01-01", 1, 2), record("2024-01-15", 2, 2)]);
    h.archive_week(record("2024-01-08", 1, 3));
    let once = starts(&h);
    h.archive_week(record("2024-01-08", 1, 3));
    assert_eq!(starts(&h), once);
    assert_eq!(h.weeks()[1].total, 3);
}

#[test]
fn history_lists_newest_first_with_iso_weeks() {
    let h = History::from_records(vec![
        record("2024-01-01", 1, 2),
        record("2024-12-30", 1, 2),
        record("pas une date", 1, 2),
    ]);
    assert_eq!(h.listed_weeks(), vec![(1, 1), (0, 1)]);
    let h = History::from_records(vec![record("2024-03-11", 1, 2), record("2024-03-18", 1, 2)]);
    assert_eq!(h.listed_weeks(), vec![(1, 12), (0, 11)]);
}

#[test]
fn loaded_history_is_kept_as_read() {
    let h = History::from_records(vec![record("2024-01-01", 1, 2), record("2024-01-08", 2, 2)]);
    assert_eq!(starts(&h), vec!["2024-01-01", "2024-01-08"]);
    let h = History::from_records(vec![record("2024-01-08", 2, 2), record("2024-01-01", 1, 2), record("2024-01-08", 1, 4)]);
    assert_eq!(starts(&h), vec!["2024-01-08", "2024-01-01", "2024-01-08"]);
    assert_eq!(h.weeks()[2].total, 4);
}

#[test]
fn archive_sorts_a_hand_edited_history_stably() {
    let mut h = History::from_records(vec![
        record("2024-01-08", 2, 2),
        record("2024-01-01", 1, 2),
        record("2024-01-08", 1, 4),
    ]);
    h.archive_week(record("2024-01-15", 1, 1));
    assert_eq!(starts(&h), vec!["2024-01-01", "2024-01-08", "2024-01-08", "2024-01-15"]);
    assert_eq!(h.weeks()[1].total, 2);
    assert_eq!(h.weeks()[2].total, 4);
    h.archive_week(record("2024-01-08", 3, 3));
    assert_eq!(starts(&h), vec!["2024-01-01", "2024-01-08", "2024-01-08", "2024-01-15"]);
    assert_eq!(h.weeks()[1].total, 3);
    assert_eq!(h.weeks()[2].total, 4);
}

#[test]
fn duplicated_weeks_are_looked_up_first_and_removed_together() {
    let mut h = History::from_records(vec![
        record("2024-01-08", 2, 2),
        record("2024-01-01", 1, 2),
        record("2024-01-08", 1, 4),
    ]);
    assert_eq!(h.previous_week(day(2024, 1, 15)), Some(0));
    assert_eq!(h.find_week(&"2024-01-08".to_string()), Some(0));
    assert_eq!(h.current_streak(day(2024, 1, 15), &vec![false, true, true]), 2);
    assert_eq!(h.current_streak(day(2024, 1, 15), &vec![false, true, false]), 0);
    h.remove_week(&"2024-01-08".to_string());
    assert_eq!(starts(&h), vec!["2024-01-01"]);
    h.remove_week(&"2023-12-25".to_string());
    assert_eq!(starts(&h), vec!["2024-01-01"]);
}

#[test]
fn archive_skips_weeks_without_counted_boxes() {
    let mut h = History::new();
    assert!(!h.archive_week(record("2024-01-08", 0, 0)));
    assert_eq!(h.len(), 0);
}

#[test]
fn archive_keeps_latest_weeks() {
    let mut h = History::new();
    let first = day(2020, 1, 6);
    for k in 0..(HISTORY_LIMIT as i32 + 3) {
        assert!(h.archive_week(record(&week_start_text(first + 7 * k), 1, 1)));
    }
    assert_eq!(h.len(), HISTORY_LIMIT);
    assert_eq!(h.weeks()[0].week_start, week_start_text(first + 21));
    // An older week than all those kept is dropped at once.
    assert!(h.archive_week(record("2019-01-07", 1, 1)));
    assert_eq!(h.len(), HISTORY_LIMIT);
    assert_eq!(h.find_week(&"2019-01-07".to_string()), None);
}

#[test]
fn remove_week_drops_it() {
    let mut h = History::from_records(vec![record("2024-01-01", 1, 1), record("2024-01-08", 1, 1)]);
    h.remove_week(&"2024-01-01".to_string());
    assert_eq!(starts(&h), vec!["2024-01-08"]);
    h.remove_week(&"2030-01-01".to_string());
    assert_eq!(h.len(), 1);
}

#[test]
fn previous_week_is_found_by_its_start() {
    let h = History::from_records(vec![record("2024-01-01", 1, 2), record("2024-01-08", 2, 2)]);
    assert_eq!(h.previous_week(day(2024, 1, 15)), Some(1));
    assert_eq!(h.previous_week(day(2024, 1, 8)), Some(0));
    assert_eq!(h.previous_week(day(2024, 1, 22)), None);
}

#[test]
fn streak_counts_consecutive_weeks() {
    let h = History::from_records(vec![
        record("2023-12-18", 1, 1),
        record("2024-01-01", 1, 1),
        record("2024-01-08", 1, 1),
        record("2024-01-15", 1, 1),
    ]);
    let monday = day(2024, 1, 22);
    assert_eq!(h.current_streak(monday, &vec![true, true, true, true]), 3);
    assert_eq!(h.current_streak(monday, &vec![true, true, false, true]), 1);
    assert_eq!(h.current_streak(day(2024, 1, 29), &vec![true, true, true, true]), 0);
    assert_eq!(History::new().current_streak(monday, &Vec::new()), 0);
}

#[test]
fn streak_ignores_the_current_week_archived() {
    let h = History::from_records(vec![
        record("2026-11-02", 90, 100),
        record("2026-11-09", 85, 100),
        record("2026-11-16", 40, 100),
    ]);
    let monday = day(2026, 11, 16);
    assert_eq!(h.current_streak(monday, &vec![true, true, false]), 2);
    assert_eq!(h.current_streak(monday, &vec![false, true, true]), 1);
    assert_eq!(h.current_streak(day(2026, 11, 23), &vec![true, true, true]), 3);
}

#[test]
fn summarize_current_week() {
    let mut cats = materialize_categories(&sample_config(), None);
    cats[0].tasks[1].occurrences[0] = true;
    cats[1].tasks[2].occurrences[1] = true;
    let r = summarize_categories(&cats, "2024-01-01");
    assert_eq!(r.week_start, "2024-01-01");
    assert_eq!((r.done, r.total), (1, 7));
    assert_eq!(r.categories.len(), 2);
    assert_eq!((r.categories[0].name.as_str(), r.categories[0].done, r.categories[0].total), ("Maths", 1, 3));
    assert_eq!((r.categories[1].name.as_str(), r.categories[1].done, r.categories[1].total), ("Perso", 0, 4));
}

#[test]
fn summarize_saved_state() {
    let raw = sample_config();
    let mut tasks: StrMap<Vec<bool>> = StrMap::new();
    tasks.insert("Maths::DM".to_string(), vec![true]);
    tasks.insert("Perso::Lecture".to_string(), vec![true, true]);
    tasks.insert("Maths::Colle".to_string(), vec![true, false]);
    tasks.insert("Ancienne::Tâche".to_string(), vec![false, true, false]);
    tasks.insert("sans séparateur".to_string(), vec![true]);
    let r = summarize_state(&tasks, &raw, "2024-01-01");
    assert_eq!(r.week_start, "2024-01-01");
    assert_eq!((r.done, r.total), (4, 7));
    let cats: Vec<(String, usize, usize)> = r.categories.iter().map(|c| (c.name.clone(), c.done, c.total)).collect();
    assert_eq!(cats, vec![("Maths".to_string(), 2, 3), ("Ancienne".to_string(), 1, 3)]);
}

#[test]
fn setup_proposes_opposite_inclusion_and_last_count() {
    let raw = sample_config();
    let defs = build_setup_defs(&raw, None);
    assert_eq!(defs.len(), 2);
    assert_eq!(defs[0].task_name, "Sport");
    assert!(defs[0].kind == DynamicKind::Occurrences { default: 3 });
    assert!(defs[1].kind == DynamicKind::Include { default: true });

    let mut prior = WeekChoices::new();
    prior.inclusion.insert("Perso::Vocabulaire".to_string(), true);
    prior.occurrences.insert("Perso::Sport".to_string(), 6);
    let setup = new_week_setup_state(&raw, Some(&prior));
    assert!(setup.defs[1].kind == DynamicKind::Include { default: false });
    assert_eq!(setup.include_answers.get(&"Perso::Vocabulaire".to_string()), Some(&false));
    assert_eq!(setup.occurrence_answers.get(&"Perso::Sport".to_string()), Some(&6));
    assert_eq!(setup.include_answers.len(), 1);
    assert_eq!(setup.occurrence_answers.len(), 1);
}

#[test]
fn stepper_stays_in_bounds() {
    assert_eq!(stepper_decrement(3, 0), 2);
    assert_eq!(stepper_decrement(0, 0), 0);
    assert_eq!(stepper_increment(13, 14), 14);
    assert_eq!(stepper_increment(14, 14), 14);
    assert_eq!(stepper_decrement(1, 1), 1);
}

#[test]
fn rng_is_xorshift() {
    let mut r = Rng::new(0);
    assert_eq!(r.next_u32(), 16514);
    assert_eq!(r.next_u32(), 1090915329);
    assert_eq!(r.next_u32(), 2217700998);
    let mut r = Rng::new(42);
    assert_eq!(r.next_u32(), 710099);
    let mut a = Rng::new(7);
    let mut b = Rng::new(6);
    assert_eq!(a.next_u32(), b.next_u32());
}

#[test]
fn colours() {
    assert_eq!(palette_color(0), Rgb { r: 255, g: 99, b: 132 });
    assert_eq!(palette_color(7), Rgb { r: 54, g: 162, b: 235 });
    assert_eq!(palette_color(5), Rgb { r: 255, g: 159, b: 64 });
    assert_eq!(category_color(3), Rgb { r: 108, g: 140, b: 255 });
    assert_eq!(category_color(9), Rgb { r: 78, g: 205, b: 196 });
    assert!(Prefs::default().dark_mode);
}

fn state_for(cats: &Vec<Category>, choices: &WeekChoices, today: i32) -> StateFile {
    state_snapshot(cats, choices, today)
}

#[test]
fn load_same_week_restores_boxes() {
    let raw = vec![category("Maths", vec![task("DM", 2)])];
    let mut cats = materialize_categories(&raw, None);
    cats[0].tasks[0].occurrences[1] = true;
    let today = day(2024, 1, 3);
    let state = state_for(&cats, &WeekChoices::new(), today);
    assert_eq!(state.week_start.as_deref(), Some("2024-01-01"));
    assert_eq!(state_box_count(&state.tasks), Some(2));
    let loaded = load_all(raw, None, state, History::new(), day(2024, 1, 5));
    assert!(!loaded.new_week_detected);
    assert!(loaded.had_prior_state);
    assert!(loaded.week_setup.is_none());
    assert!(!loaded.history_changed);
    assert_eq!(loaded.categories[0].tasks[0].occurrences, vec![false, true]);
    assert!(loaded.state_to_save.is_some());
}

#[test]
fn load_new_week_archives_previous() {
    let raw = vec![category("Maths", vec![task("DM", 2)])];
    let mut cats = materialize_categories(&raw, None);
    cats[0].tasks[0].occurrences[1] = true;
    let state = state_for(&cats, &WeekChoices::new(), day(2024, 1, 3));
    let loaded = load_all(raw, Some("w".to_string()), state, History::new(), day(2024, 1, 10));
    assert!(loaded.new_week_detected);
    assert!(loaded.history_changed);
    assert_eq!(loaded.warning.as_deref(), Some("w"));
    assert_eq!(loaded.history.len(), 1);
    assert_eq!(loaded.history.weeks()[0].week_start, "2024-01-01");
    assert_eq!((loaded.history.weeks()[0].done, loaded.history.weeks()[0].total), (1, 2));
    assert_eq!(loaded.categories[0].tasks[0].occurrences, vec![false, false]);
    let saved = loaded.state_to_save.unwrap();
    assert_eq!(saved.week_start.as_deref(), Some("2024-01-08"));
}

#[test]
fn load_without_state_and_with_questions_opens_setup() {
    let empty = StateFile { week_start: None, tasks: StrMap::new(), choices: None };
    let loaded = load_all(sample_config(), None, empty, History::new(), day(2024, 1, 3));
    assert!(!loaded.new_week_detected);
    assert!(!loaded.had_prior_state);
    assert!(loaded.state_to_save.is_none());
    let setup = loaded.week_setup.unwrap();
    assert_eq!(setup.defs.len(), 2);
}

#[test]
fn planner_reset_week_archives_and_clears() {
    let raw = vec![category("Maths", vec![task("DM", 2)])];
    let cats = materialize_categories(&raw, None);
    let state = state_for(&cats, &WeekChoices::new(), day(2024, 1, 3));
    let today = day(2024, 1, 4);
    let mut p = Planner::from_load(load_all(raw, None, state, History::new(), today));
    assert!(p.toggle_box(0, 0, 1));
    assert!(!p.toggle_box(0, 0, 1));
    assert!(p.toggle_box(0, 0, 0));
    let (changed, saved) = p.reset_week(today);
    assert!(changed);
    assert_eq!(p.history.weeks()[0].week_start, "2024-01-01");
    assert_eq!((p.history.weeks()[0].done, p.history.weeks()[0].total), (1, 2));
    assert_eq!(p.categories[0].tasks[0].occurrences, vec![false, false]);
    assert_eq!(saved.tasks.get(&"Maths::DM".to_string()), Some(&vec![false, false]));
    assert!(p.has_real_week_data);
}

#[test]
fn planner_new_week_flow_and_setup() {
    let empty = StateFile { week_start: None, tasks: StrMap::new(), choices: None };
    let today = day(2024, 1, 3);
    let mut p = Planner::from_load(load_all(sample_config(), None, empty, History::new(), today));
    let (changed, _state) = p.finalize_week_setup(today).unwrap();
    assert!(!changed);
    assert!(p.week_setup.is_none());
    assert_eq!(p.current_choices.inclusion.get(&"Perso::Vocabulaire".to_string()), Some(&true));
    assert!(p.finalize_week_setup(today).is_none());
    p.open_new_week_flow();
    let setup = p.week_setup.as_ref().unwrap();
    assert_eq!(setup.include_answers.get(&"Perso::Vocabulaire".to_string()), Some(&false));

    let mut plain = Planner::from_load(load_all(
        vec![category("Maths", vec![task("DM", 1)])],
        None,
        StateFile { week_start: None, tasks: StrMap::new(), choices: None },
        History::new(),
        today,
    ));
    plain.open_new_week_flow();
    assert!(plain.show_reset_confirm);
    assert!(plain.week_setup.is_none());
}

#[test]
fn planner_save_editor_applies_changed_counts() {
    let empty = StateFile { week_start: None, tasks: StrMap::new(), choices: None };
    let today = day(2024, 1, 3);
    let mut p = Planner::from_load(load_all(sample_config(), None, empty, History::new(), today));
    p.finalize_week_setup(today);
    p.toggle_box(0, 1, 1);
    let mut edited = sample_config();
    edited[1].tasks[0].occurrences = 4;
    edited[0].tasks[1].occurrences = 3;
    let saved = p.save_editor(edited, today);
    assert_eq!(p.current_choices.occurrences.get(&"Perso::Sport".to_string()), Some(&4));
    assert_eq!(p.categories[1].tasks[0].occurrences.len(), 4);
    assert_eq!(p.categories[0].tasks[1].occurrences, vec![false, true, false]);
    assert_eq!(saved.week_start.as_deref(), Some("2024-01-01"));

    let same = sample_config();
    p.current_choices.occurrences.insert("Perso::Sport".to_string(), 2);
    p.save_editor(same, today);
    // The configured number went from 4 back to 3, so it applies again.
    assert_eq!(p.current_choices.occurrences.get(&"Perso::Sport".to_string()), Some(&3));
    let again = sample_config();
    p.current_choices.occurrences.insert("Perso::Sport".to_string(), 2);
    p.save_editor(again, today);
    assert_eq!(p.current_choices.occurrences.get(&"Perso::Sport".to_string()), Some(&2));
}

#[test]
fn planner_tracks_completion() {
    let raw = vec![category("Maths", vec![task("DM", 1)]), category("Perso", vec![task("Sport", 1)])];
    let today = day(2024, 1, 3);
    let empty = StateFile { week_start: None, tasks: StrMap::new(), choices: None };
    let mut p = Planner::from_load(load_all(raw, None, empty, History::new(), today));
    let u = p.track_completion();
    assert_eq!(u.events, vec![("Maths".to_string(), false), ("Perso".to_string(), false)]);
    assert!(!u.week_just_completed);
    p.toggle_box(0, 0, 0);
    let u = p.track_completion();
    assert_eq!(u.events, vec![("Maths".to_string(), true), ("Perso".to_string(), false)]);
    let u = p.track_completion();
    assert_eq!(u.events, vec![("Perso".to_string(), false)]);
    p.toggle_box(1, 0, 0);
    let u = p.track_completion();
    assert_eq!(u.events, vec![("Perso".to_string(), true)]);
    assert!(u.week_just_completed);
    assert!(!p.track_completion().week_just_completed);
}


#[test]
fn monday_of_agrees_with_chrono_over_many_days() {
    for d in (day(1999, 12, 1)..day(2001, 3, 1)).chain(FIRST_MONDAY..FIRST_MONDAY + 30).chain(-400..400) {
        let date = NaiveDate::from_num_days_from_ce_opt(d).unwrap();
        let expected = d - date.weekday().num_days_from_monday() as i32;
        assert_eq!(monday_of(d), expected);
        assert_eq!(
            week_start_text(d),
            NaiveDate::from_num_days_from_ce_opt(expected).unwrap().format("%Y-%m-%d").to_string()
        );
    }
}
