use vstd::prelude::*;

use crate::keys::{spec_state_key, state_key};
use crate::strmap::StrMap;

verus! {

/// One task as the configuration file describes it.
pub struct TaskConfig {
    pub name: String,
    /// The number of boxes to tick over the week.
    pub occurrences: u32,
    /// `false` marks a bonus task, left out of every progress count.
    pub count_in_progress: bool,
    /// Whether the task's inclusion is asked again at each new week.
    pub ask_include: bool,
    /// Whether the task's number of boxes is asked again at each new week.
    pub ask_occurrences: bool,
    /// Whether the task is also tracked by the Monday-to-Friday progress bar.
    pub weekday_only: bool,
}

pub struct TaskConfigView {
    pub name: Seq<char>,
    pub occurrences: u32,
    pub count_in_progress: bool,
    pub ask_include: bool,
    pub ask_occurrences: bool,
    pub weekday_only: bool,
}

impl View for TaskConfig {
    type V = TaskConfigView;

    open spec fn view(&self) -> TaskConfigView {
        TaskConfigView {
            name: self.name@,
            occurrences: self.occurrences,
            count_in_progress: self.count_in_progress,
            ask_include: self.ask_include,
            ask_occurrences: self.ask_occurrences,
            weekday_only: self.weekday_only,
        }
    }
}

impl Clone for TaskConfig {
    fn clone(&self) -> (r: Self)
        ensures
            r@ == self@,
    {
        TaskConfig {
            name: self.name.clone(),
            occurrences: self.occurrences,
            count_in_progress: self.count_in_progress,
            ask_include: self.ask_include,
            ask_occurrences: self.ask_occurrences,
            weekday_only: self.weekday_only,
        }
    }
}

/// One category as the configuration file describes it.
pub struct CategoryConfig {
    pub name: String,
    pub icon: String,
    pub tasks: Vec<TaskConfig>,
}

pub struct CategoryConfigView {
    pub name: Seq<char>,
    pub icon: Seq<char>,
    pub tasks: Seq<TaskConfigView>,
}

pub open spec fn task_configs_view(tasks: Seq<TaskConfig>) -> Seq<TaskConfigView> {
    tasks.map_values(|t: TaskConfig| t@)
}

pub open spec fn category_configs_view(cats: Seq<CategoryConfig>) -> Seq<CategoryConfigView> {
    cats.map_values(|c: CategoryConfig| c@)
}

impl View for CategoryConfig {
    type V = CategoryConfigView;

    open spec fn view(&self) -> CategoryConfigView {
        CategoryConfigView {
            name: self.name@,
            icon: self.icon@,
            tasks: task_configs_view(self.tasks@),
        }
    }
}

impl Clone for CategoryConfig {
    fn clone(&self) -> (r: Self)
        ensures
            r@ == self@,
    {
        let mut tasks: Vec<TaskConfig> = Vec::new();
        let n = self.tasks.len();
        for i in 0..n
            invariant
                n == self.tasks@.len(),
                tasks@.len() == i,
                task_configs_view(tasks@) == task_configs_view(self.tasks@).take(i as int),
        {
            let t = self.tasks[i].clone();
            assert(t@ == self.tasks@[i as int]@);
            let ghost prev = tasks@;
            tasks.push(t);
            assert forall|k: int| 0 <= k < i + 1 implies #[trigger] task_configs_view(tasks@)[k]
                == task_configs_view(self.tasks@)[k] by {
                if k < i {
                    assert(tasks@[k] == prev[k]);
                    assert(task_configs_view(prev)[k] == task_configs_view(self.tasks@).take(i as int)[k]);
                }
            }
            assert(task_configs_view(tasks@) =~= task_configs_view(self.tasks@).take(i + 1));
        }
        assert(task_configs_view(self.tasks@).take(n as int) =~= task_configs_view(self.tasks@));
        CategoryConfig { name: self.name.clone(), icon: self.icon.clone(), tasks }
    }
}

/// The number of boxes a task gets when the configuration does not say.
pub fn default_occurrences() -> (n: u32)
    ensures
        n == 1,
{
    1
}

/// The value of a flag that the configuration leaves out and that is on by default.
pub fn default_true() -> (b: bool)
    ensures
        b,
{
    true
}

/// The categories shown when the configuration file is missing or invalid:
/// one category whose single task tells the user what to do.
pub fn fallback_raw_categories() -> (cats: Vec<CategoryConfig>)
    ensures
        cats@.len() == 1,
        cats@[0]@.name == "Exemple"@,
        cats@[0]@.icon == "⚠"@,
        cats@[0]@.tasks.len() == 1,
        cats@[0]@.tasks[0] == (TaskConfigView {
            name: "Crée/complète ton fichier config.toml (ou utilise le bouton ✏) puis relance l'appli"@,
            occurrences: 1,
            count_in_progress: true,
            ask_include: false,
            ask_occurrences: false,
            weekday_only: false,
        }),
{
    let task = TaskConfig {
        name: String::from_str(
            "Crée/complète ton fichier config.toml (ou utilise le bouton ✏) puis relance l'appli",
        ),
        occurrences: 1,
        count_in_progress: true,
        ask_include: false,
        ask_occurrences: false,
        weekday_only: false,
    };
    let mut tasks: Vec<TaskConfig> = Vec::new();
    tasks.push(task);
    let cat = CategoryConfig {
        name: String::from_str("Exemple"),
        icon: String::from_str("⚠"),
        tasks,
    };
    let mut cats: Vec<CategoryConfig> = Vec::new();
    cats.push(cat);
    cats
}

/// Whether a task is asked about at each new week.
pub open spec fn is_dynamic(t: TaskConfigView) -> bool {
    t.ask_include || t.ask_occurrences
}

/// Whether some task of the configuration asks, at each new week, for its
/// inclusion or for its number of boxes.
pub open spec fn spec_has_dynamic_tasks(raw: Seq<CategoryConfigView>) -> bool {
    exists|i: int, j: int|
        0 <= i < raw.len() && 0 <= j < raw[i].tasks.len() && #[trigger] is_dynamic(raw[i].tasks[j])
}

/// Whether the weekly questionnaire has anything to ask.
pub fn has_dynamic_tasks(raw: &Vec<CategoryConfig>) -> (r: bool)
    ensures
        r == spec_has_dynamic_tasks(category_configs_view(raw@)),
{
    let ghost rv = category_configs_view(raw@);
    let n = raw.len();
    let mut i: usize = 0;
    while i < n
        invariant
            n == raw@.len(),
            rv == category_configs_view(raw@),
            i <= n,
            forall|a: int, b: int|
                0 <= a < i && 0 <= b < rv[a].tasks.len() ==> !#[trigger] is_dynamic(rv[a].tasks[b]),
        decreases n - i,
    {
        let c = &raw[i];
        let m = c.tasks.len();
        assert(rv[i as int] == c@);
        let mut j: usize = 0;
        while j < m
            invariant
                n == raw@.len(),
                rv == category_configs_view(raw@),
                i < n,
                rv[i as int] == c@,
                m == c.tasks@.len(),
                j <= m,
                forall|a: int, b: int|
                    0 <= a < i && 0 <= b < rv[a].tasks.len() ==> !#[trigger] is_dynamic(rv[a].tasks[b]),
                forall|b: int| 0 <= b < j ==> !#[trigger] is_dynamic(rv[i as int].tasks[b]),
            decreases m - j,
        {
            assert(rv[i as int].tasks[j as int] == c.tasks@[j as int]@);
            if c.tasks[j].ask_include || c.tasks[j].ask_occurrences {
                assert(is_dynamic(rv[i as int].tasks[j as int]));
                return true;
            }
            j += 1;
        }
        i += 1;
    }
    false
}

/// The map built by inserting the pairs of `s` in order: a key that occurs
/// twice ends up with its last value.
pub open spec fn map_of_pairs<V>(s: Seq<(Seq<char>, V)>) -> Map<Seq<char>, V>
    decreases s.len(),
{
    if s.len() == 0 {
        Map::empty()
    } else {
        map_of_pairs(s.drop_last()).insert(s.last().0, s.last().1)
    }
}

/// The pairs (state key, counts in progress) of one category's tasks, in order.
pub open spec fn category_progress_flags(c: CategoryConfigView) -> Seq<(Seq<char>, bool)> {
    c.tasks.map_values(|t: TaskConfigView| (spec_state_key(c.name, t.name), t.count_in_progress))
}

/// The pairs (state key, counts in progress) of all tasks, category after category.
pub open spec fn progress_flags(raw: Seq<CategoryConfigView>) -> Seq<(Seq<char>, bool)>
    decreases raw.len(),
{
    if raw.len() == 0 {
        Seq::empty()
    } else {
        progress_flags(raw.drop_last()) + category_progress_flags(raw.last())
    }
}

/// Whether a task's boxes count in the progress, by its state key.
pub open spec fn spec_count_in_progress_map(raw: Seq<CategoryConfigView>) -> Map<Seq<char>, bool> {
    map_of_pairs(progress_flags(raw))
}

/// For every task of the configuration, its state key mapped to whether it
/// counts in the progress (the last task wins when two tasks share a key).
pub fn count_in_progress_map(raw: &Vec<CategoryConfig>) -> (m: StrMap<bool>)
    ensures
        m@ == spec_count_in_progress_map(category_configs_view(raw@)),
{
    let ghost rv = category_configs_view(raw@);
    let mut m: StrMap<bool> = StrMap::new();
    let n = raw.len();
    for i in 0..n
        invariant
            n == raw@.len(),
            rv == category_configs_view(raw@),
            m@ == map_of_pairs(progress_flags(rv.take(i as int))),
    {
        let c = &raw[i];
        let ghost before = progress_flags(rv.take(i as int));
        let ghost flags = category_progress_flags(rv[i as int]);
        let k = c.tasks.len();
        for j in 0..k
            invariant
                n == raw@.len(),
                rv == category_configs_view(raw@),
                i < n,
                c == raw@[i as int],
                k == c.tasks@.len(),
                flags == category_progress_flags(rv[i as int]),
                flags.len() == k,
                m@ == map_of_pairs(before + flags.take(j as int)),
        {
            let t = &c.tasks[j];
            let key = state_key(c.name.as_str(), t.name.as_str());
            m.insert(key, t.count_in_progress);
            assert((before + flags.take(j + 1)).drop_last() =~= before + flags.take(j as int));
        }
        assert(rv.take(i + 1).drop_last() =~= rv.take(i as int));
        assert(flags.take(k as int) =~= flags);
    }
    assert(rv.take(n as int) =~= rv);
    m
}

/// The header that explains the configuration file's structure.
pub const CONFIG_HEADER: &'static str = "# Configuration de PrepaWeek
#
# Modifiable ici à la main, OU depuis l'appli via le bouton \"✏\" (cet
# en-tête est réécrit automatiquement à chaque sauvegarde depuis l'appli,
# mais la structure ci-dessous reste la même).
#
# Structure :
#   [[categories]]
#   name = \"Nom de la catégorie\"
#   icon = \"🎯\"          <- utilise uniquement des icônes confirmées visibles
#
#   [[categories.tasks]]
#   name = \"Nom de la tâche\"
#   occurrences = 1          <- nombre de cases à cocher sur la semaine
#   count_in_progress = true <- false = tâche \"bonus\", hors avancement
#   ask_include = false      <- true = redemandé chaque semaine (inclure ?)
#   ask_occurrences = false  <- true = redemandé chaque semaine (combien ?)
#   weekday_only = false     <- true = suivie aussi dans la barre \"avant
#                              vendredi soir\" séparée (lundi → vendredi)
";

/// The text written to the configuration file: the explanatory header,
/// an empty line, then the serialized categories.
pub fn config_file_text(body: &str) -> (text: String)
    ensures
        text@ == CONFIG_HEADER@ + "\n"@ + body@,
{
    let mut text = String::from_str(CONFIG_HEADER);
    text.append("\n");
    text.append(body);
    text
}

/// The weekly questionnaire has something to ask exactly when some
/// configured task asks, at each new week, for its inclusion or for its
/// number of boxes; a task asking only for its number of boxes is enough.
pub proof fn lemma_dynamic_tasks(raw: Seq<CategoryConfigView>)
    ensures
        spec_has_dynamic_tasks(raw) <==> exists|i: int, j: int|
            #![trigger raw[i].tasks[j]]
            0 <= i < raw.len() && 0 <= j < raw[i].tasks.len() && (raw[i].tasks[j].ask_include
                || raw[i].tasks[j].ask_occurrences),
{
    if exists|i: int, j: int|
        #![trigger raw[i].tasks[j]]
        0 <= i < raw.len() && 0 <= j < raw[i].tasks.len() && (raw[i].tasks[j].ask_include
            || raw[i].tasks[j].ask_occurrences) {
        let (i, j) = choose|i: int, j: int|
            #![trigger raw[i].tasks[j]]
            0 <= i < raw.len() && 0 <= j < raw[i].tasks.len() && (raw[i].tasks[j].ask_include
                || raw[i].tasks[j].ask_occurrences);
        assert(is_dynamic(raw[i].tasks[j]));
    }
    assert forall|i: int, j: int|
        0 <= i < raw.len() && 0 <= j < raw[i].tasks.len() && #[trigger] is_dynamic(raw[i].tasks[j]) implies
        raw[i].tasks[j].ask_include || raw[i].tasks[j].ask_occurrences by {}
}

} // verus!
