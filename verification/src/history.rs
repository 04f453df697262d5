use vstd::prelude::*;

use crate::calendar::{FIRST_DAY, LAST_DAY, date_text, iso_date_text, iso_week_number, iso_week_of_text};
use crate::textorder::{
    lemma_text_lt_asymmetric, lemma_text_lt_irreflexive, lemma_text_lt_total,
    lemma_text_lt_transitive, text_less, text_lt,
};

verus! {

/// The number of weeks the history keeps at most.
pub const HISTORY_LIMIT: usize = 104;

/// One category's counts in an archived week.
pub struct CategorySummary {
    pub name: String,
    pub done: usize,
    pub total: usize,
}

pub struct CategorySummaryView {
    pub name: Seq<char>,
    pub done: usize,
    pub total: usize,
}

impl View for CategorySummary {
    type V = CategorySummaryView;

    open spec fn view(&self) -> CategorySummaryView {
        CategorySummaryView { name: self.name@, done: self.done, total: self.total }
    }
}

pub open spec fn summaries_view(s: Seq<CategorySummary>) -> Seq<CategorySummaryView> {
    s.map_values(|c: CategorySummary| c@)
}

/// An archived week: its start, and how many counted boxes it had and had
/// ticked, overall and by category.
pub struct WeekRecord {
    pub week_start: String,
    pub total: usize,
    pub done: usize,
    pub categories: Vec<CategorySummary>,
}

pub struct WeekRecordView {
    pub week_start: Seq<char>,
    pub total: usize,
    pub done: usize,
    pub categories: Seq<CategorySummaryView>,
}

impl View for WeekRecord {
    type V = WeekRecordView;

    open spec fn view(&self) -> WeekRecordView {
        WeekRecordView {
            week_start: self.week_start@,
            total: self.total,
            done: self.done,
            categories: summaries_view(self.categories@),
        }
    }
}

pub open spec fn records_view(s: Seq<WeekRecord>) -> Seq<WeekRecordView> {
    s.map_values(|w: WeekRecord| w@)
}

/// The weeks are in order of their start text: no week starts before an
/// earlier one in the list (two weeks may share a start).
pub open spec fn ordered_weeks(s: Seq<WeekRecordView>) -> bool {
    forall|i: int, j: int|
        0 <= i < j < s.len() ==> !text_lt(#[trigger] s[j].week_start, #[trigger] s[i].week_start)
}

/// The position of the first week of `s` that starts at `key`, if any.
pub open spec fn first_index(s: Seq<WeekRecordView>, key: Seq<char>) -> Option<int>
    decreases s.len(),
{
    if s.len() == 0 {
        None
    } else {
        match first_index(s.drop_last(), key) {
            Some(i) => Some(i),
            None => if s.last().week_start == key {
                Some(s.len() - 1)
            } else {
                None
            },
        }
    }
}

/// What `first_index` gives: the first position with that start, or `None`
/// when no week starts there.
pub proof fn lemma_first_index(s: Seq<WeekRecordView>, key: Seq<char>)
    ensures
        match first_index(s, key) {
            Some(i) => 0 <= i < s.len() && s[i].week_start == key && forall|j: int|
                0 <= j < i ==> #[trigger] s[j].week_start != key,
            None => forall|j: int| 0 <= j < s.len() ==> #[trigger] s[j].week_start != key,
        },
    decreases s.len(),
{
    if s.len() > 0 {
        let d = s.drop_last();
        lemma_first_index(d, key);
        match first_index(d, key) {
            Some(i) => {
                assert forall|j: int| 0 <= j < i implies #[trigger] s[j].week_start != key by {
                    assert(d[j] == s[j]);
                }
                assert(d[i] == s[i]);
            },
            None => {
                assert forall|j: int| 0 <= j < d.len() implies #[trigger] s[j].week_start != key by {
                    assert(d[j] == s[j]);
                }
            },
        }
    }
}

/// A position holding the first week with that start is what `first_index`
/// gives.
pub proof fn lemma_first_index_at(s: Seq<WeekRecordView>, key: Seq<char>, i: int)
    requires
        0 <= i < s.len(),
        s[i].week_start == key,
        forall|j: int| 0 <= j < i ==> #[trigger] s[j].week_start != key,
    ensures
        first_index(s, key) == Some(i),
{
    lemma_first_index(s, key);
    match first_index(s, key) {
        Some(k) => {
            if k < i {
                assert(s[k].week_start != key);
            } else if k > i {
                assert(s[i].week_start != key);
            }
        },
        None => {
            assert(s[i].week_start != key);
        },
    }
}

/// No week of `s` starts at `key`: `first_index` gives `None`.
proof fn lemma_first_index_none(s: Seq<WeekRecordView>, key: Seq<char>)
    requires
        forall|j: int| 0 <= j < s.len() ==> #[trigger] s[j].week_start != key,
    ensures
        first_index(s, key) is None,
{
    lemma_first_index(s, key);
    if let Some(k) = first_index(s, key) {
        assert(s[k].week_start != key);
    }
}

/// `s` with `r` in place of its first week with the same start, or with `r`
/// added at the end when there is none.
pub open spec fn replaced(s: Seq<WeekRecordView>, r: WeekRecordView) -> Seq<WeekRecordView> {
    match first_index(s, r.week_start) {
        Some(i) => s.update(i, r),
        None => s.push(r),
    }
}

/// A sorted `t` with `x` inserted after every week that does not start
/// after it.
pub open spec fn insert_sorted(t: Seq<WeekRecordView>, x: WeekRecordView) -> Seq<WeekRecordView>
    decreases t.len(),
{
    if t.len() == 0 {
        seq![x]
    } else if text_lt(x.week_start, t.last().week_start) {
        insert_sorted(t.drop_last(), x).push(t.last())
    } else {
        t.push(x)
    }
}

/// `s` sorted by start, weeks with the same start keeping their order (a
/// stable sort).
pub open spec fn sorted_by_start(s: Seq<WeekRecordView>) -> Seq<WeekRecordView>
    decreases s.len(),
{
    if s.len() == 0 {
        Seq::empty()
    } else {
        insert_sorted(sorted_by_start(s.drop_last()), s.last())
    }
}

/// Where `insert_sorted` puts `x`: after the last week that does not start
/// after it, every later week starting after it.
pub open spec fn is_insert_point(t: Seq<WeekRecordView>, x: WeekRecordView, p: int) -> bool {
    &&& 0 <= p <= t.len()
    &&& forall|q: int| p <= q < t.len() ==> text_lt(x.week_start, #[trigger] t[q].week_start)
    &&& (p == 0 || !text_lt(x.week_start, t[p - 1].week_start))
}

proof fn lemma_insert_point_unique(t: Seq<WeekRecordView>, x: WeekRecordView, p: int, q: int)
    requires
        is_insert_point(t, x, p),
        is_insert_point(t, x, q),
    ensures
        p == q,
{
    if p < q {
        assert(text_lt(x.week_start, t[q - 1].week_start));
    } else if q < p {
        assert(text_lt(x.week_start, t[p - 1].week_start));
    }
}

/// `insert_sorted` inserts `x` at its insert point.
proof fn lemma_insert_sorted(t: Seq<WeekRecordView>, x: WeekRecordView) -> (p: int)
    ensures
        is_insert_point(t, x, p),
        insert_sorted(t, x) == t.insert(p, x),
    decreases t.len(),
{
    if t.len() == 0 {
        assert(insert_sorted(t, x) =~= t.insert(0, x));
        0
    } else if text_lt(x.week_start, t.last().week_start) {
        let d = t.drop_last();
        let p = lemma_insert_sorted(d, x);
        assert forall|q: int| p <= q < t.len() implies text_lt(x.week_start, #[trigger] t[q].week_start) by {
            if q < d.len() {
                assert(t[q] == d[q]);
            }
        }
        if p > 0 {
            assert(t[p - 1] == d[p - 1]);
        }
        assert(insert_sorted(t, x) =~= t.insert(p, x));
        p
    } else {
        let p = t.len() as int;
        assert(insert_sorted(t, x) =~= t.insert(p, x));
        p
    }
}

/// Inserting at the insert point keeps weeks in order.
proof fn lemma_insert_ordered(t: Seq<WeekRecordView>, x: WeekRecordView, p: int)
    requires
        ordered_weeks(t),
        is_insert_point(t, x, p),
    ensures
        ordered_weeks(t.insert(p, x)),
{
    let u = t.insert(p, x);
    assert forall|i: int, j: int| 0 <= i < j < u.len() implies !text_lt(
        #[trigger] u[j].week_start,
        #[trigger] u[i].week_start,
    ) by {
        if j < p {
            assert(u[i] == t[i] && u[j] == t[j]);
        } else if j == p {
            assert(u[i] == t[i]);
            if text_lt(x.week_start, t[i].week_start) {
                if i < p - 1 {
                    assert(!text_lt(t[p - 1].week_start, t[i].week_start));
                    if t[p - 1].week_start != x.week_start {
                        lemma_text_lt_total(t[p - 1].week_start, x.week_start);
                        lemma_text_lt_transitive(t[p - 1].week_start, x.week_start, t[i].week_start);
                    }
                }
            }
        } else {
            assert(u[j] == t[j - 1]);
            assert(text_lt(x.week_start, t[j - 1].week_start));
            if i == p {
                lemma_text_lt_asymmetric(x.week_start, t[j - 1].week_start);
            } else if i < p {
                assert(u[i] == t[i]);
            } else {
                assert(u[i] == t[i - 1]);
            }
        }
    }
}

/// Sorting by start gives weeks in order.
pub proof fn lemma_sorted_by_start_ordered(s: Seq<WeekRecordView>)
    ensures
        ordered_weeks(sorted_by_start(s)),
    decreases s.len(),
{
    if s.len() > 0 {
        lemma_sorted_by_start_ordered(s.drop_last());
        let t = sorted_by_start(s.drop_last());
        let p = lemma_insert_sorted(t, s.last());
        lemma_insert_ordered(t, s.last(), p);
    }
}

/// Weeks already in order are left as they are by sorting.
pub proof fn lemma_sorted_by_start_of_ordered(s: Seq<WeekRecordView>)
    requires
        ordered_weeks(s),
    ensures
        sorted_by_start(s) == s,
    decreases s.len(),
{
    if s.len() > 0 {
        let d = s.drop_last();
        assert(ordered_weeks(d)) by {
            assert forall|i: int, j: int| 0 <= i < j < d.len() implies !text_lt(
                #[trigger] d[j].week_start,
                #[trigger] d[i].week_start,
            ) by {
                assert(d[i] == s[i] && d[j] == s[j]);
            }
        }
        lemma_sorted_by_start_of_ordered(d);
        if d.len() > 0 {
            assert(d.last() == s[s.len() - 2]);
        }
        assert(s =~= d.push(s.last()));
    }
}

/// The latest `HISTORY_LIMIT` weeks of `s`.
pub open spec fn capped(s: Seq<WeekRecordView>) -> Seq<WeekRecordView> {
    if s.len() > HISTORY_LIMIT {
        s.skip(s.len() - HISTORY_LIMIT)
    } else {
        s
    }
}

/// The history after archiving `r`: a week with no counted box is not
/// archived; otherwise `r` replaces the first week with the same start (or
/// is added), the weeks are sorted by start, weeks with the same start
/// keeping their order, and only the latest `HISTORY_LIMIT` are kept.
pub open spec fn archived(s: Seq<WeekRecordView>, r: WeekRecordView) -> Seq<WeekRecordView> {
    if r.total == 0 {
        s
    } else {
        capped(sorted_by_start(replaced(s, r)))
    }
}

/// Inserts `w` into the sorted `out` after every week that does not start
/// after it.
fn insert_week(out: &mut Vec<WeekRecord>, w: WeekRecord)
    ensures
        records_view(final(out)@) == insert_sorted(records_view(old(out)@), w@),
{
    let ghost t = records_view(out@);
    let mut p: usize = out.len();
    while p > 0 && text_less(&w.week_start, &out[p - 1].week_start)
        invariant
            t == records_view(out@),
            p <= out@.len(),
            forall|q: int| p <= q < t.len() ==> text_lt(w@.week_start, #[trigger] t[q].week_start),
        decreases p,
    {
        assert(t[p - 1] == out@[p - 1]@);
        p = p - 1;
    }
    proof {
        if p > 0 {
            assert(t[p - 1] == out@[p - 1]@);
        }
        let q = lemma_insert_sorted(t, w@);
        lemma_insert_point_unique(t, w@, p as int, q);
    }
    let ghost before = out@;
    out.insert(p, w);
    assert(records_view(out@) =~= t.insert(p as int, w@)) by {
        assert forall|k: int| 0 <= k < out@.len() implies #[trigger] records_view(out@)[k] == t.insert(p as int, w@)[k] by {
            if k < p {
                assert(out@[k] == before[k]);
            } else if k > p {
                assert(out@[k] == before[k - 1]);
            }
        }
    }
}

/// The weeks sorted by start, weeks with the same start keeping their order.
fn sort_weeks(weeks: Vec<WeekRecord>) -> (r: Vec<WeekRecord>)
    ensures
        records_view(r@) == sorted_by_start(records_view(weeks@)),
{
    let ghost all = records_view(weeks@);
    let mut rest = weeks;
    let mut out: Vec<WeekRecord> = Vec::new();
    let n = rest.len();
    let mut done: usize = 0;
    assert(all.skip(0) =~= all);
    assert(all.take(0) =~= Seq::<WeekRecordView>::empty());
    assert(records_view(out@) =~= Seq::<WeekRecordView>::empty());
    while rest.len() > 0
        invariant
            n == all.len(),
            rest@.len() + done == n,
            records_view(rest@) == all.skip(done as int),
            records_view(out@) == sorted_by_start(all.take(done as int)),
        decreases rest.len(),
    {
        let ghost before = rest@;
        let w = rest.remove(0);
        assert forall|k: int| 0 <= k < rest@.len() implies #[trigger] records_view(rest@)[k] == all.skip(done + 1)[k] by {
            assert(rest@[k] == before[k + 1]);
            assert(records_view(before)[k + 1] == all.skip(done as int)[k + 1]);
        }
        assert(all[done as int] == w@) by {
            assert(all.skip(done as int)[0] == all[done as int]);
        }
        insert_week(&mut out, w);
        assert(all.take(done + 1).drop_last() =~= all.take(done as int));
        done += 1;
        assert(records_view(rest@) =~= all.skip(done as int));
    }
    assert(all.take(n as int) =~= all);
    out
}

/// The weeks archived so far, as they were read back or archived.
pub struct History {
    weeks: Vec<WeekRecord>,
}

impl View for History {
    type V = Seq<WeekRecordView>;

    closed spec fn view(&self) -> Seq<WeekRecordView> {
        records_view(self.weeks@)
    }
}

impl History {
    /// An empty history.
    pub fn new() -> (h: Self)
        ensures
            h@ == Seq::<WeekRecordView>::empty(),
    {
        let h = History { weeks: Vec::new() };
        assert(h@ =~= Seq::<WeekRecordView>::empty());
        h
    }

    /// The archived weeks, in their order.
    pub fn weeks(&self) -> (w: &Vec<WeekRecord>)
        ensures
            records_view(w@) == self@,
    {
        &self.weeks
    }

    /// The number of archived weeks.
    pub fn len(&self) -> (n: usize)
        ensures
            n == self@.len(),
    {
        self.weeks.len()
    }

    /// The history read back: its weeks, kept as they are.
    pub fn from_records(records: Vec<WeekRecord>) -> (h: Self)
        ensures
            h@ == records_view(records@),
    {
        History { weeks: records }
    }

    /// The position of the first week that starts at `key`, if any.
    pub fn find_week(&self, key: &String) -> (r: Option<usize>)
        ensures
            match r {
                Some(i) => first_index(self@, key@) == Some(i as int),
                None => first_index(self@, key@) is None,
            },
    {
        let n = self.weeks.len();
        let mut i: usize = 0;
        while i < n
            invariant
                n == self@.len(),
                i <= n,
                forall|j: int| 0 <= j < i ==> #[trigger] self@[j].week_start != key@,
            decreases n - i,
        {
            if self.weeks[i].week_start == *key {
                proof {
                    lemma_first_index_at(self@, key@, i as int);
                }
                return Some(i);
            }
            i += 1;
        }
        proof {
            lemma_first_index_none(self@, key@);
        }
        None
    }

    /// Archives a week. A week with no counted box leaves the history as it
    /// is and `false` is returned. Otherwise the week replaces the first one
    /// with the same start (or is added), the weeks are sorted by start,
    /// those with the same start keeping their order, only the latest
    /// `HISTORY_LIMIT` are kept, and `true` is returned: the history is then
    /// to be saved.
    pub fn archive_week(&mut self, record: WeekRecord) -> (changed: bool)
        ensures
            changed == (record.total != 0),
            final(self)@ == archived(old(self)@, record@),
    {
        if record.total == 0 {
            return false;
        }
        let ghost s = self@;
        let ghost r = record@;
        let found = self.find_week(&record.week_start);
        proof {
            lemma_first_index(s, r.week_start);
        }
        let mut weeks: Vec<WeekRecord> = Vec::new();
        std::mem::swap(&mut weeks, &mut self.weeks);
        match found {
            Some(i) => {
                weeks.set(i, record);
                assert(records_view(weeks@) =~= s.update(i as int, r));
            },
            None => {
                weeks.push(record);
                assert(records_view(weeks@) =~= s.push(r));
            },
        }
        let mut sorted = sort_weeks(weeks);
        if sorted.len() > HISTORY_LIMIT {
            let drop = sorted.len() - HISTORY_LIMIT;
            let ghost full = records_view(sorted@);
            let kept = sorted.split_off(drop);
            sorted = kept;
            assert(records_view(sorted@) =~= full.skip(drop as int));
        }
        self.weeks = sorted;
        true
    }
}

impl History {
    /// The position of the first archived week that starts the week just
    /// before the one that starts on `monday`, if there is one.
    pub fn previous_week(&self, monday: i32) -> (r: Option<usize>)
        requires
            FIRST_DAY + 7 <= monday <= LAST_DAY,
        ensures
            match r {
                Some(i) => first_index(self@, iso_date_text((monday - 7) as i32)) == Some(i as int)
                    && i < self@.len() && self@[i as int].week_start == iso_date_text((monday - 7) as i32),
                None => forall|i: int|
                    0 <= i < self@.len() ==> #[trigger] self@[i].week_start != iso_date_text(
                        (monday - 7) as i32,
                    ),
            },
    {
        let key = date_text(monday - 7);
        let r = self.find_week(&key);
        proof {
            lemma_first_index(self@, key@);
        }
        r
    }

    /// Whether some archived week that starts at `key` meets the threshold:
    /// `meets[i]` says whether the `i`-th archived week does.
    fn week_meets(&self, key: &String, meets: &Vec<bool>) -> (b: bool)
        requires
            meets@.len() == self@.len(),
        ensures
            b == week_met(self@, meets@, key@),
    {
        let n = self.weeks.len();
        let mut i: usize = 0;
        while i < n
            invariant
                n == self@.len(),
                n == meets@.len(),
                i <= n,
                forall|j: int| 0 <= j < i ==> !(#[trigger] self@[j].week_start == key@ && meets@[j]),
            decreases n - i,
        {
            if meets[i] && self.weeks[i].week_start == *key {
                assert(self@[i as int].week_start == key@);
                return true;
            }
            i += 1;
        }
        false
    }

    /// The number of weeks immediately before the one that starts on
    /// `monday`, without a gap, for which some archived week meets the
    /// threshold: `meets[i]` says whether the `i`-th archived week does.
    /// Weeks archived for `monday` or later play no part.
    pub fn current_streak(&self, monday: i32, meets: &Vec<bool>) -> (streak: u32)
        requires
            meets@.len() == self@.len(),
            FIRST_DAY + 7 <= monday <= LAST_DAY,
        ensures
            streak == streak_from(self@, meets@, monday - 7),
    {
        let mut streak: u32 = 0;
        let mut expected: i32 = monday - 7;
        while expected >= FIRST_DAY
            invariant
                meets@.len() == self@.len(),
                FIRST_DAY + 7 <= monday <= LAST_DAY,
                FIRST_DAY - 7 <= expected <= monday - 7,
                7 * streak == monday - 7 - expected,
                streak_from(self@, meets@, monday - 7) == streak + streak_from(self@, meets@, expected as int),
            decreases expected - FIRST_DAY + 7,
        {
            let text = date_text(expected);
            if self.week_meets(&text, meets) {
                streak = streak + 1;
                expected = expected - 7;
            } else {
                return streak;
            }
        }
        streak
    }

    /// The weeks to list, newest first: the position of each archived week
    /// whose start chrono reads as a date, with its ISO week number.
    pub fn listed_weeks(&self) -> (r: Vec<(usize, u32)>)
        ensures
            r@ == shown_weeks(self@),
    {
        let ghost s = self@;
        let mut out: Vec<(usize, u32)> = Vec::new();
        let mut i: usize = self.weeks.len();
        assert(s.take(i as int) =~= s);
        assert(out@ + shown_weeks(s) =~= shown_weeks(s));
        while i > 0
            invariant
                s == self@,
                i <= s.len(),
                shown_weeks(s) == out@ + shown_weeks(s.take(i as int)),
            decreases i,
        {
            let ghost t = s.take(i as int);
            assert(t.last() == s[i - 1]);
            assert(t.drop_last() =~= s.take(i - 1));
            let ghost before = out@;
            match iso_week_number(&self.weeks[i - 1].week_start) {
                Some(w) => {
                    out.push((i - 1, w));
                    assert(before + shown_weeks(t) =~= out@ + shown_weeks(s.take(i - 1)));
                },
                None => {
                    assert(before + shown_weeks(t) =~= out@ + shown_weeks(s.take(i - 1)));
                },
            }
            i = i - 1;
        }
        assert(out@ + shown_weeks(s.take(0)) =~= out@);
        out
    }

    /// Removes every archived week that starts at `key`.
    pub fn remove_week(&mut self, key: &String)
        ensures
            final(self)@ == without_week(old(self)@, key@),
    {
        let mut rest: Vec<WeekRecord> = Vec::new();
        std::mem::swap(&mut rest, &mut self.weeks);
        let ghost all = records_view(rest@);
        let n = rest.len();
        let mut done: usize = 0;
        let mut out: Vec<WeekRecord> = Vec::new();
        assert(all.skip(0) =~= all);
        assert(all.take(0) =~= Seq::<WeekRecordView>::empty());
        assert(records_view(out@) =~= Seq::<WeekRecordView>::empty());
        while rest.len() > 0
            invariant
                n == all.len(),
                all == old(self)@,
                rest@.len() + done == n,
                records_view(rest@) == all.skip(done as int),
                records_view(out@) == without_week(all.take(done as int), key@),
            decreases rest.len(),
        {
            let ghost before = rest@;
            let w = rest.remove(0);
            assert forall|k: int| 0 <= k < rest@.len() implies #[trigger] records_view(rest@)[k]
                == all.skip(done + 1)[k] by {
                assert(rest@[k] == before[k + 1]);
                assert(records_view(before)[k + 1] == all.skip(done as int)[k + 1]);
            }
            assert(all[done as int] == w@) by {
                assert(all.skip(done as int)[0] == all[done as int]);
            }
            assert(all.take(done + 1).drop_last() =~= all.take(done as int));
            if !(w.week_start == *key) {
                out.push(w);
                assert(records_view(out@) =~= without_week(all.take(done + 1), key@));
            }
            done += 1;
            assert(records_view(rest@) =~= all.skip(done as int));
        }
        assert(all.take(n as int) =~= all);
        self.weeks = out;
    }
}

/// `s` without the weeks that start at `key`.
pub open spec fn without_week(s: Seq<WeekRecordView>, key: Seq<char>) -> Seq<WeekRecordView>
    decreases s.len(),
{
    if s.len() == 0 {
        Seq::empty()
    } else {
        let d = without_week(s.drop_last(), key);
        if s.last().week_start == key {
            d
        } else {
            d.push(s.last())
        }
    }
}

/// Whether some week of `s` that starts at `key` meets the threshold.
pub open spec fn week_met(s: Seq<WeekRecordView>, meets: Seq<bool>, key: Seq<char>) -> bool {
    exists|i: int| 0 <= i < s.len() && #[trigger] s[i].week_start == key && meets[i]
}

/// The number of consecutive weeks, going back one week at a time from the
/// week that starts on day `expected`, for which some archived week meets
/// the threshold (`meets[i]` for the `i`-th archived week); the count stops
/// at the first week without one, or at the calendar's start.
pub open spec fn streak_from(s: Seq<WeekRecordView>, meets: Seq<bool>, expected: int) -> nat
    decreases expected - FIRST_DAY + 7,
{
    if expected < FIRST_DAY {
        0
    } else if week_met(s, meets, iso_date_text(expected as i32)) {
        1 + streak_from(s, meets, expected - 7)
    } else {
        0
    }
}

/// The weeks to list, newest first: the position of each week of `s` whose
/// start is read as a date, with its ISO week number.
pub open spec fn shown_weeks(s: Seq<WeekRecordView>) -> Seq<(usize, u32)>
    decreases s.len(),
{
    if s.len() == 0 {
        Seq::empty()
    } else {
        let here = match iso_week_of_text(s.last().week_start) {
            Some(w) => seq![((s.len() - 1) as usize, w)],
            None => Seq::empty(),
        };
        here + shown_weeks(s.drop_last())
    }
}

/// Keeping the latest weeks keeps them in order.
proof fn lemma_capped_ordered(s: Seq<WeekRecordView>)
    requires
        ordered_weeks(s),
    ensures
        ordered_weeks(capped(s)),
{
    let t = capped(s);
    if s.len() > HISTORY_LIMIT {
        let d = s.len() - HISTORY_LIMIT;
        assert forall|i: int, j: int| 0 <= i < j < t.len() implies !text_lt(
            #[trigger] t[j].week_start,
            #[trigger] t[i].week_start,
        ) by {
            assert(t[i] == s[i + d] && t[j] == s[j + d]);
        }
    }
}

/// Archiving leaves the history in order of start: after a week with
/// counted boxes whatever the history was, and otherwise when it was.
pub proof fn lemma_archive_keeps_order(s: Seq<WeekRecordView>, r: WeekRecordView)
    requires
        r.total != 0 || ordered_weeks(s),
    ensures
        ordered_weeks(archived(s, r)),
{
    if r.total != 0 {
        lemma_sorted_by_start_ordered(replaced(s, r));
        lemma_capped_ordered(sorted_by_start(replaced(s, r)));
    }
}

/// Archiving a week with counted boxes leaves at most `HISTORY_LIMIT` weeks.
pub proof fn lemma_archive_limit(s: Seq<WeekRecordView>, r: WeekRecordView)
    requires
        r.total != 0,
    ensures
        archived(s, r).len() <= HISTORY_LIMIT,
{
}

/// A week with no counted box leaves the history as it is.
pub proof fn lemma_archive_skips_empty(s: Seq<WeekRecordView>, r: WeekRecordView)
    requires
        r.total == 0,
    ensures
        archived(s, r) == s,
{
}

/// Sorting keeps the number of weeks.
proof fn lemma_sorted_by_start_len(s: Seq<WeekRecordView>)
    ensures
        sorted_by_start(s).len() == s.len(),
    decreases s.len(),
{
    if s.len() > 0 {
        lemma_sorted_by_start_len(s.drop_last());
        lemma_insert_sorted(sorted_by_start(s.drop_last()), s.last());
    }
}

/// Sorting keeps every week.
proof fn lemma_sorted_by_start_has(s: Seq<WeekRecordView>, m: int)
    requires
        0 <= m < s.len(),
    ensures
        exists|j: int| 0 <= j < sorted_by_start(s).len() && #[trigger] sorted_by_start(s)[j] == s[m],
    decreases s.len(),
{
    let d = s.drop_last();
    let t = sorted_by_start(d);
    let p = lemma_insert_sorted(t, s.last());
    lemma_sorted_by_start_len(d);
    let u = sorted_by_start(s);
    if m == s.len() - 1 {
        assert(u[p] == s[m]);
    } else {
        lemma_sorted_by_start_has(d, m);
        let j = choose|j: int| 0 <= j < t.len() && #[trigger] t[j] == d[m];
        assert(d[m] == s[m]);
        if j < p {
            assert(u[j] == s[m]);
        } else {
            assert(u[j + 1] == s[m]);
        }
    }
}

/// Inserting `x` keeps the first week that starts at `key`; when there is
/// none and `x` starts there, `x` is the first.
proof fn lemma_insert_first(t: Seq<WeekRecordView>, x: WeekRecordView, key: Seq<char>)
    ensures
        ({
            let u = insert_sorted(t, x);
            match first_index(t, key) {
                Some(i) => first_index(u, key) matches Some(j) && u[j] == t[i],
                None => if x.week_start == key {
                    first_index(u, key) matches Some(j) && u[j] == x
                } else {
                    first_index(u, key) is None
                },
            }
        }),
{
    let p = lemma_insert_sorted(t, x);
    let u = t.insert(p, x);
    lemma_first_index(t, key);
    match first_index(t, key) {
        Some(i) => {
            if x.week_start == key && i >= p {
                assert(text_lt(x.week_start, t[i].week_start));
                lemma_text_lt_irreflexive(key);
            }
            let j = if i < p { i } else { i + 1 };
            assert(u[j] == t[i]);
            assert forall|l: int| 0 <= l < j implies #[trigger] u[l].week_start != key by {
                if l < p {
                    assert(u[l] == t[l]);
                } else if l > p {
                    assert(u[l] == t[l - 1]);
                }
            }
            lemma_first_index_at(u, key, j);
        },
        None => {
            if x.week_start == key {
                assert forall|l: int| 0 <= l < p implies #[trigger] u[l].week_start != key by {
                    assert(u[l] == t[l]);
                }
                lemma_first_index_at(u, key, p);
            } else {
                assert forall|l: int| 0 <= l < u.len() implies #[trigger] u[l].week_start != key by {
                    if l < p {
                        assert(u[l] == t[l]);
                    } else if l > p {
                        assert(u[l] == t[l - 1]);
                    }
                }
                lemma_first_index_none(u, key);
            }
        },
    }
}

/// Sorting keeps which week is the first to start at `key` (the sort is
/// stable).
pub proof fn lemma_sorted_first(s: Seq<WeekRecordView>, key: Seq<char>)
    ensures
        match first_index(s, key) {
            Some(i) => first_index(sorted_by_start(s), key) matches Some(j) && sorted_by_start(s)[j] == s[i],
            None => first_index(sorted_by_start(s), key) is None,
        },
    decreases s.len(),
{
    if s.len() > 0 {
        let d = s.drop_last();
        lemma_sorted_first(d, key);
        lemma_insert_first(sorted_by_start(d), s.last(), key);
        if let Some(i) = first_index(d, key) {
            lemma_first_index(d, key);
            assert(d[i] == s[i]);
        }
    }
}

/// After `replaced`, the first week that starts where `r` does is `r`.
proof fn lemma_replaced_first(s: Seq<WeekRecordView>, r: WeekRecordView)
    ensures
        first_index(replaced(s, r), r.week_start) matches Some(i) && replaced(s, r)[i] == r,
{
    let k = r.week_start;
    let t = replaced(s, r);
    lemma_first_index(s, k);
    match first_index(s, k) {
        Some(i) => {
            assert forall|l: int| 0 <= l < i implies #[trigger] t[l].week_start != k by {
                assert(t[l] == s[l]);
            }
            lemma_first_index_at(t, k, i);
        },
        None => {
            assert forall|l: int| 0 <= l < s.len() implies #[trigger] t[l].week_start != k by {
                assert(t[l] == s[l]);
            }
            lemma_first_index_at(t, k, s.len() as int);
        },
    }
}

/// Whether the archived week is still there after the oldest weeks beyond
/// the limit were dropped.
pub open spec fn survives(s: Seq<WeekRecordView>, r: WeekRecordView) -> bool {
    let f = sorted_by_start(replaced(s, r));
    f.len() <= HISTORY_LIMIT || (first_index(f, r.week_start) matches Some(j) && j >= f.len()
        - HISTORY_LIMIT)
}

/// After archiving a week with counted boxes, looking its start up gives
/// back that week, unless it was older than all the `HISTORY_LIMIT` weeks
/// kept.
pub proof fn lemma_archive_read_back(s: Seq<WeekRecordView>, r: WeekRecordView)
    requires
        r.total != 0,
        survives(s, r),
    ensures
        first_index(archived(s, r), r.week_start) matches Some(i) && archived(s, r)[i] == r,
{
    let k = r.week_start;
    let t = replaced(s, r);
    let f = sorted_by_start(t);
    lemma_replaced_first(s, r);
    lemma_sorted_first(t, k);
    lemma_first_index(f, k);
    if f.len() > HISTORY_LIMIT {
        let d = f.len() - HISTORY_LIMIT;
        let a = archived(s, r);
        let j = first_index(f, k).unwrap();
        assert(a[j - d] == f[j]);
        assert forall|l: int| 0 <= l < j - d implies #[trigger] a[l].week_start != k by {
            assert(a[l] == f[l + d]);
        }
        lemma_first_index_at(a, k, j - d);
    }
}

/// While the history stays within the limit, archiving keeps every week
/// other than the one it replaces.
pub proof fn lemma_archive_keeps_others(s: Seq<WeekRecordView>, r: WeekRecordView, i: int)
    requires
        r.total != 0,
        replaced(s, r).len() <= HISTORY_LIMIT,
        0 <= i < s.len(),
        first_index(s, r.week_start) != Some(i),
    ensures
        exists|j: int| 0 <= j < archived(s, r).len() && #[trigger] archived(s, r)[j] == s[i],
{
    let t = replaced(s, r);
    lemma_sorted_by_start_len(t);
    lemma_first_index(s, r.week_start);
    match first_index(s, r.week_start) {
        Some(fi) => {
            assert(t == s.update(fi, r));
            assert(t[i] == s[i]);
        },
        None => {
            assert(t == s.push(r));
            assert(t[i] == s[i]);
        },
    }
    lemma_sorted_by_start_has(t, i);
    assert(archived(s, r) == sorted_by_start(t));
    let j = choose|j: int| 0 <= j < sorted_by_start(t).len() && #[trigger] sorted_by_start(t)[j] == s[i];
    assert(archived(s, r)[j] == s[i]);
}

/// The number of weeks of `s` that start at `key`.
pub open spec fn starts_at(s: Seq<WeekRecordView>, key: Seq<char>) -> nat
    decreases s.len(),
{
    if s.len() == 0 {
        0
    } else {
        starts_at(s.drop_last(), key) + if s.last().week_start == key {
            1nat
        } else {
            0nat
        }
    }
}

proof fn lemma_starts_at_concat(a: Seq<WeekRecordView>, b: Seq<WeekRecordView>, key: Seq<char>)
    ensures
        starts_at(a + b, key) == starts_at(a, key) + starts_at(b, key),
    decreases b.len(),
{
    if b.len() == 0 {
        assert(a + b =~= a);
    } else {
        assert((a + b).drop_last() =~= a + b.drop_last());
        assert((a + b).last() == b.last());
        lemma_starts_at_concat(a, b.drop_last(), key);
    }
}

proof fn lemma_starts_at_one(x: WeekRecordView, key: Seq<char>)
    ensures
        starts_at(seq![x], key) == if x.week_start == key {
            1nat
        } else {
            0nat
        },
{
    let one = seq![x];
    assert(one.drop_last() =~= Seq::<WeekRecordView>::empty());
    assert(one.last() == x);
    assert(starts_at(one.drop_last(), key) == 0);
}

proof fn lemma_starts_at_pos(s: Seq<WeekRecordView>, key: Seq<char>, i: int)
    requires
        0 <= i < s.len(),
        s[i].week_start == key,
    ensures
        starts_at(s, key) >= 1,
    decreases s.len(),
{
    if i < s.len() - 1 {
        assert(s.drop_last()[i] == s[i]);
        lemma_starts_at_pos(s.drop_last(), key, i);
    }
}

proof fn lemma_starts_at_zero(s: Seq<WeekRecordView>, key: Seq<char>)
    requires
        forall|j: int| 0 <= j < s.len() ==> #[trigger] s[j].week_start != key,
    ensures
        starts_at(s, key) == 0,
    decreases s.len(),
{
    if s.len() > 0 {
        let d = s.drop_last();
        assert forall|j: int| 0 <= j < d.len() implies #[trigger] d[j].week_start != key by {
            assert(d[j] == s[j]);
        }
        lemma_starts_at_zero(d, key);
    }
}

proof fn lemma_starts_at_two(s: Seq<WeekRecordView>, key: Seq<char>, i: int, j: int)
    requires
        0 <= i < j < s.len(),
        s[i].week_start == key,
        s[j].week_start == key,
    ensures
        starts_at(s, key) >= 2,
{
    assert(s =~= s.take(j) + s.skip(j));
    lemma_starts_at_concat(s.take(j), s.skip(j), key);
    assert(s.take(j)[i] == s[i]);
    lemma_starts_at_pos(s.take(j), key, i);
    assert(s.skip(j)[0] == s[j]);
    lemma_starts_at_pos(s.skip(j), key, 0);
}

proof fn lemma_starts_at_insert(t: Seq<WeekRecordView>, p: int, x: WeekRecordView, key: Seq<char>)
    requires
        0 <= p <= t.len(),
    ensures
        starts_at(t.insert(p, x), key) == starts_at(t, key) + starts_at(seq![x], key),
{
    assert(t.insert(p, x) =~= t.take(p) + seq![x] + t.skip(p));
    assert(t =~= t.take(p) + t.skip(p));
    lemma_starts_at_concat(t.take(p) + seq![x], t.skip(p), key);
    lemma_starts_at_concat(t.take(p), seq![x], key);
    lemma_starts_at_concat(t.take(p), t.skip(p), key);
}

proof fn lemma_starts_at_sorted(s: Seq<WeekRecordView>, key: Seq<char>)
    ensures
        starts_at(sorted_by_start(s), key) == starts_at(s, key),
    decreases s.len(),
{
    if s.len() > 0 {
        let d = s.drop_last();
        lemma_starts_at_sorted(d, key);
        let t = sorted_by_start(d);
        let p = lemma_insert_sorted(t, s.last());
        lemma_starts_at_insert(t, p, s.last(), key);
        lemma_starts_at_one(s.last(), key);
    }
}

/// When at most one week of `s` starts where `r` does, exactly one week of
/// `replaced(s, r)` does.
proof fn lemma_starts_at_replaced(s: Seq<WeekRecordView>, r: WeekRecordView)
    requires
        starts_at(s, r.week_start) <= 1,
    ensures
        starts_at(replaced(s, r), r.week_start) == 1,
{
    let k = r.week_start;
    lemma_first_index(s, k);
    match first_index(s, k) {
        Some(i) => {
            lemma_starts_at_pos(s, k, i);
            assert(s =~= s.take(i) + seq![s[i]] + s.skip(i + 1));
            assert(s.update(i, r) =~= s.take(i) + seq![r] + s.skip(i + 1));
            lemma_starts_at_concat(s.take(i) + seq![s[i]], s.skip(i + 1), k);
            lemma_starts_at_concat(s.take(i), seq![s[i]], k);
            lemma_starts_at_concat(s.take(i) + seq![r], s.skip(i + 1), k);
            lemma_starts_at_concat(s.take(i), seq![r], k);
            lemma_starts_at_one(s[i], k);
            lemma_starts_at_one(r, k);
        },
        None => {
            lemma_starts_at_zero(s, k);
            assert(s.push(r).drop_last() =~= s);
        },
    }
}

/// Archiving the same week twice leaves the history as archiving it once,
/// when the week survives the limit or at most one archived week started
/// where it does (with two such weeks, the second can take the place of an
/// archived week that the limit dropped).
pub proof fn lemma_archive_twice(s: Seq<WeekRecordView>, r: WeekRecordView)
    requires
        survives(s, r) || starts_at(s, r.week_start) <= 1,
    ensures
        archived(archived(s, r), r) == archived(s, r),
{
    if r.total != 0 {
        let k = r.week_start;
        let t = replaced(s, r);
        let f = sorted_by_start(t);
        let a = archived(s, r);
        lemma_archive_keeps_order(s, r);
        lemma_sorted_by_start_ordered(t);
        lemma_sorted_by_start_len(t);
        if survives(s, r) {
            lemma_archive_read_back(s, r);
            lemma_first_index(a, k);
            let i = first_index(a, k).unwrap();
            assert(replaced(a, r) == a.update(i, r));
            assert(a.update(i, r) =~= a);
            lemma_sorted_by_start_of_ordered(a);
        } else {
            let d = f.len() - HISTORY_LIMIT;
            assert(a =~= f.skip(d));
            lemma_replaced_first(s, r);
            lemma_sorted_first(t, k);
            lemma_first_index(f, k);
            let j = first_index(f, k).unwrap();
            assert(j < d);
            lemma_starts_at_replaced(s, r);
            lemma_starts_at_sorted(t, k);
            assert forall|q: int| 0 <= q < a.len() implies text_lt(k, #[trigger] a[q].week_start) by {
                assert(a[q] == f[q + d]);
                if f[q + d].week_start == k {
                    lemma_starts_at_two(f, k, j, q + d);
                }
                assert(!text_lt(f[q + d].week_start, f[j].week_start));
                lemma_text_lt_total(k, f[q + d].week_start);
            }
            assert forall|q: int| 0 <= q < a.len() implies #[trigger] a[q].week_start != k by {
                assert(text_lt(k, a[q].week_start));
                lemma_text_lt_irreflexive(k);
            }
            lemma_first_index_none(a, k);
            assert(replaced(a, r) == a.push(r));
            assert(a.push(r).drop_last() =~= a);
            lemma_sorted_by_start_of_ordered(a);
            assert(sorted_by_start(a.push(r)) == insert_sorted(a, r));
            let p = lemma_insert_sorted(a, r);
            assert(is_insert_point(a, r, 0));
            lemma_insert_point_unique(a, r, p, 0);
            assert(capped(a.insert(0, r)) =~= a);
        }
    }
}

} // verus!
