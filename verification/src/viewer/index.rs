//! The viewer's index of the screenshot archive: shots grouped by calendar
//! day, each day's shots in time order.

use chrono::{Datelike, Timelike};
use std::collections::BTreeMap;
use vstd::prelude::*;
use vstd::set::fold::is_fun_commutative;
use vstd::std_specs::btree::spec_btree_map_iter;
use vstd::std_specs::iter::IteratorSpec;
use crate::viewer::keys::{day_keys_ordered, lemma_day_keys_ordered};
use crate::viewer::calendar::{day_number, lemma_date_order, month_length};

verus! {

/// When a screenshot was taken, as its file name states it (local wall clock).
#[derive(Clone, Copy, Debug, PartialEq, Eq, Structural)]
pub struct ShotTime {
    pub year: i32,
    pub month: u32,
    pub day: u32,
    pub hour: u32,
    pub minute: u32,
    pub second: u32,
    pub nanosecond: u32,
}

/// The calendar day of a time, the key of the index.
pub open spec fn date_key(t: ShotTime) -> (i32, u32, u32) {
    (t.year, t.month, t.day)
}

/// Chronological order of times (date, then time of day).
pub open spec fn time_lt(a: ShotTime, b: ShotTime) -> bool {
    if a.year != b.year {
        a.year < b.year
    } else if a.month != b.month {
        a.month < b.month
    } else if a.day != b.day {
        a.day < b.day
    } else if a.hour != b.hour {
        a.hour < b.hour
    } else if a.minute != b.minute {
        a.minute < b.minute
    } else if a.second != b.second {
        a.second < b.second
    } else {
        a.nanosecond < b.nanosecond
    }
}

/// Exec counterpart of `time_lt`.
pub fn time_before(a: &ShotTime, b: &ShotTime) -> (r: bool)
    ensures
        r == time_lt(*a, *b),
        r == (a.year < b.year || (a.year == b.year && (a.month < b.month || (a.month == b.month && (
        a.day < b.day || (a.day == b.day && (a.hour < b.hour || (a.hour == b.hour && (a.minute
            < b.minute || (a.minute == b.minute && (a.second < b.second || (a.second == b.second
            && a.nanosecond < b.nanosecond)))))))))))),
{
    if a.year != b.year {
        a.year < b.year
    } else if a.month != b.month {
        a.month < b.month
    } else if a.day != b.day {
        a.day < b.day
    } else if a.hour != b.hour {
        a.hour < b.hour
    } else if a.minute != b.minute {
        a.minute < b.minute
    } else if a.second != b.second {
        a.second < b.second
    } else {
        a.nanosecond < b.nanosecond
    }
}

/// Seconds since midnight of a time's clock part.
pub open spec fn clock_secs(t: ShotTime) -> int {
    t.hour * 3600 + t.minute * 60 + t.second
}

/// Whether the time of day of `t` lies in the span `[a, b]` of whole seconds
/// since midnight (as `NaiveTime` compares: a time past second `b` by a
/// fraction is outside).
pub open spec fn in_span(t: ShotTime, a: u32, b: u32) -> bool {
    !(clock_secs(t) < a || clock_secs(t) > b || (clock_secs(t) == b && t.nanosecond > 0))
}

/// Exec counterpart of `in_span`.
pub fn time_in_span(t: &ShotTime, a: u32, b: u32) -> (r: bool)
    ensures
        r == in_span(*t, a, b),
        r == (a <= t.hour * 3600 + t.minute * 60 + t.second <= b && !(t.hour * 3600 + t.minute * 60
            + t.second == b && t.nanosecond > 0)),
{
    let secs: u64 = t.hour as u64 * 3600 + t.minute as u64 * 60 + t.second as u64;
    !(secs < a as u64 || secs > b as u64 || (secs == b as u64 && t.nanosecond > 0))
}

/// How many of the day's shots fall in the span `[a, b]` (seconds since midnight).
pub open spec fn count_in_span(s: Seq<ShotView>, a: u32, b: u32) -> int
    decreases s.len(),
{
    if s.len() == 0 {
        0
    } else {
        count_in_span(s.drop_last(), a, b) + if in_span(s.last().time, a, b) {
            1int
        } else {
            0
        }
    }
}


/// A shot lies in the span `[a, b]` (whole seconds since midnight) exactly
/// when its time of day, `hour * 3600 + minute * 60 + second`, lies in it,
/// a fraction past second `b` being outside.
pub proof fn lemma_in_span(t: ShotTime, a: u32, b: u32)
    ensures
        in_span(t, a, b) <==> (a <= t.hour * 3600 + t.minute * 60 + t.second <= b && !(t.hour * 3600
            + t.minute * 60 + t.second == b && t.nanosecond > 0)),
{
}

/// The shots counted in a span are those whose time of day lies in it.
pub proof fn lemma_span_count(s: Seq<ShotView>, a: u32, b: u32)
    ensures
        count_in_span(s, a, b) == s.filter(
            |x: ShotView|
                a <= x.time.hour * 3600 + x.time.minute * 60 + x.time.second <= b && !(x.time.hour
                    * 3600 + x.time.minute * 60 + x.time.second == b && x.time.nanosecond > 0),
        ).len(),
    decreases s.len(),
{
    reveal(Seq::filter);
    if s.len() > 0 {
        lemma_span_count(s.drop_last(), a, b);
        lemma_in_span(s.last().time, a, b);
    }
}

/// One screenshot of the archive.
#[derive(Debug)]
pub struct Shot {
    pub time: ShotTime,
    /// Path of the PNG file.
    pub png: String,
    /// Seconds of screen time the shot stands for.
    pub duration_s: u64,
}

pub struct ShotView {
    pub time: ShotTime,
    pub png: Seq<char>,
    pub duration_s: u64,
}

impl View for Shot {
    type V = ShotView;

    open spec fn view(&self) -> ShotView {
        ShotView { time: self.time, png: self.png@, duration_s: self.duration_s }
    }
}

pub open spec fn shot_views(v: Seq<Shot>) -> Seq<ShotView> {
    v.map_values(|s: Shot| s@)
}

/// Where `x` goes into the time-ordered `s`: after every shot not later than it.
pub open spec fn insert_pos(s: Seq<ShotView>, x: ShotView) -> int
    decreases s.len(),
{
    if s.len() == 0 {
        0
    } else if time_lt(x.time, s.last().time) {
        insert_pos(s.drop_last(), x)
    } else {
        s.len() as int
    }
}

pub open spec fn insert_shot(s: Seq<ShotView>, x: ShotView) -> Seq<ShotView> {
    let p = insert_pos(s, x);
    s.take(p) + seq![x] + s.skip(p)
}

/// `s` stably sorted by time: equal times keep their order of `s`.
pub open spec fn sort_shots(s: Seq<ShotView>) -> Seq<ShotView>
    decreases s.len(),
{
    if s.len() == 0 {
        seq![]
    } else {
        insert_shot(sort_shots(s.drop_last()), s.last())
    }
}

/// Sum of the durations of `s`.
pub open spec fn shots_total(s: Seq<ShotView>) -> int
    decreases s.len(),
{
    if s.len() == 0 {
        0
    } else {
        shots_total(s.drop_last()) + s.last().duration_s
    }
}

proof fn lemma_insert_pos_bounds(s: Seq<ShotView>, x: ShotView)
    ensures
        0 <= insert_pos(s, x) <= s.len(),
    decreases s.len(),
{
    if s.len() > 0 && time_lt(x.time, s.last().time) {
        lemma_insert_pos_bounds(s.drop_last(), x);
    }
}

/// Whether the shots are in time order.
pub open spec fn time_sorted(s: Seq<ShotView>) -> bool {
    forall|i: int, j: int| 0 <= i < j < s.len() ==> !time_lt(#[trigger] s[j].time, #[trigger] s[i].time)
}

proof fn lemma_time_lt_order(a: ShotTime, b: ShotTime, c: ShotTime)
    ensures
        !time_lt(a, a),
        time_lt(a, b) ==> !time_lt(b, a),
        time_lt(a, b) && !time_lt(c, b) ==> time_lt(a, c),
        !time_lt(a, b) && !time_lt(b, c) ==> !time_lt(a, c),
{
}

proof fn lemma_insert_pos_props(s: Seq<ShotView>, x: ShotView)
    ensures
        0 <= insert_pos(s, x) <= s.len(),
        forall|i: int| insert_pos(s, x) <= i < s.len() ==> time_lt(x.time, #[trigger] s[i].time),
        insert_pos(s, x) > 0 ==> !time_lt(x.time, s[insert_pos(s, x) - 1].time),
    decreases s.len(),
{
    if s.len() > 0 && time_lt(x.time, s.last().time) {
        lemma_insert_pos_props(s.drop_last(), x);
        let p = insert_pos(s, x);
        assert forall|i: int| p <= i < s.len() implies time_lt(x.time, #[trigger] s[i].time) by {
            if i < s.len() - 1 {
                assert(s[i] == s.drop_last()[i]);
            }
        }
        if p > 0 {
            assert(s[p - 1] == s.drop_last()[p - 1]);
        }
    }
}

proof fn lemma_insert_sorted(s: Seq<ShotView>, x: ShotView)
    requires
        time_sorted(s),
    ensures
        time_sorted(insert_shot(s, x)),
        insert_shot(s, x) == s.insert(insert_pos(s, x), x),
{
    lemma_insert_pos_props(s, x);
    let p = insert_pos(s, x);
    let r = insert_shot(s, x);
    assert(r =~= s.insert(p, x));
    assert forall|i: int, j: int| 0 <= i < j < r.len() implies !time_lt(
        #[trigger] r[j].time,
        #[trigger] r[i].time,
    ) by {
        if j < p {
            assert(r[i] == s[i] && r[j] == s[j]);
        } else if j == p {
            assert(r[i] == s[i]);
            assert(!time_lt(s[p - 1].time, s[i].time));
            lemma_time_lt_order(x.time, s[i].time, s[p - 1].time);
        } else if i < p {
            assert(r[i] == s[i] && r[j] == s[j - 1]);
        } else if i == p {
            assert(r[j] == s[j - 1]);
            lemma_time_lt_order(x.time, s[j - 1].time, x.time);
        } else {
            assert(r[i] == s[i - 1] && r[j] == s[j - 1]);
        }
    }
}

proof fn lemma_shots_total_append(a: Seq<ShotView>, b: Seq<ShotView>)
    ensures
        shots_total(a + b) == shots_total(a) + shots_total(b),
    decreases b.len(),
{
    if b.len() == 0 {
        assert(a + b =~= a);
    } else {
        lemma_shots_total_append(a, b.drop_last());
        assert((a + b).drop_last() =~= a + b.drop_last());
    }
}

/// Sorting a day's shots yields them in time order, each shot as often as
/// it was found, and the same total of seconds.
pub proof fn lemma_sort_shots(s: Seq<ShotView>)
    ensures
        time_sorted(sort_shots(s)),
        sort_shots(s).to_multiset() == s.to_multiset(),
        shots_total(sort_shots(s)) == shots_total(s),
    decreases s.len(),
{
    broadcast use vstd::seq_lib::to_multiset_build, vstd::seq_lib::to_multiset_insert;

    if s.len() == 0 {
        assert(time_sorted(sort_shots(s)));
        assert(s =~= Seq::<ShotView>::empty());
    } else {
        let rest = sort_shots(s.drop_last());
        let x = s.last();
        lemma_sort_shots(s.drop_last());
        lemma_insert_sorted(rest, x);
        lemma_insert_pos_props(rest, x);
        let p = insert_pos(rest, x);
        assert(s.drop_last().push(x) =~= s);
        lemma_shots_total_append(rest.take(p) + seq![x], rest.skip(p));
        lemma_shots_total_append(rest.take(p), seq![x]);
        lemma_shots_total_append(rest.take(p), rest.skip(p));
        assert(rest.take(p) + rest.skip(p) =~= rest);
        assert(seq![x].drop_last() =~= Seq::<ShotView>::empty());
        assert(shots_total(seq![x].drop_last()) == 0);
        assert(shots_total(seq![x]) == x.duration_s);
        assert(rest.insert(p, x).to_multiset() == rest.to_multiset().insert(x));
        assert(s.drop_last().push(x).to_multiset() == s.drop_last().to_multiset().insert(x));
    }
}


/// Every shot of `s` falls on day `key`, and for `i < j` shot `i` is not
/// later in the day than shot `j`: by (hour, minute, second, nanosecond),
/// and, for clock fields in range, by seconds since midnight.
pub open spec fn day_in_order(s: Seq<ShotView>, key: (i32, u32, u32)) -> bool {
    forall|i: int, j: int|
        #![trigger s[i], s[j]]
        0 <= i < j < s.len() ==> {
            let a = s[i].time;
            let b = s[j].time;
            &&& date_key(a) == key && date_key(b) == key
            &&& (a.hour < b.hour || (a.hour == b.hour && (a.minute < b.minute || (a.minute == b.minute
                && (a.second < b.second || (a.second == b.second && a.nanosecond <= b.nanosecond))))))
            &&& (a.minute < 60 && a.second < 60 && b.minute < 60 && b.second < 60) ==> (a.hour * 3600
                + a.minute * 60 + a.second < b.hour * 3600 + b.minute * 60 + b.second || (a.hour * 3600
                + a.minute * 60 + a.second == b.hour * 3600 + b.minute * 60 + b.second && a.nanosecond
                <= b.nanosecond))
        }
}

proof fn lemma_shots_on_date(files: Seq<ShotFile>, fallback: u64, key: (i32, u32, u32))
    ensures
        forall|i: int|
            0 <= i < shots_on(files, fallback, key).len() ==> date_key(
                #[trigger] shots_on(files, fallback, key)[i].time,
            ) == key,
    decreases files.len(),
{
    if files.len() > 0 {
        lemma_shots_on_date(files.drop_last(), fallback, key);
        let rest = shots_on(files.drop_last(), fallback, key);
        let all = shots_on(files, fallback, key);
        assert forall|i: int| 0 <= i < all.len() implies date_key(#[trigger] all[i].time) == key by {
            if i < rest.len() {
                assert(all[i] == rest[i]);
            }
        }
    }
}

proof fn lemma_sorted_day_in_order(s: Seq<ShotView>, found: Seq<ShotView>, key: (i32, u32, u32))
    requires
        time_sorted(s),
        s.to_multiset() == found.to_multiset(),
        forall|i: int| 0 <= i < found.len() ==> date_key(#[trigger] found[i].time) == key,
    ensures
        day_in_order(s, key),
{
    broadcast use vstd::seq_lib::to_multiset_contains;

    assert forall|i: int| 0 <= i < s.len() implies date_key(#[trigger] s[i].time) == key by {
        assert(s.contains(s[i]));
        assert(s.to_multiset().count(s[i]) > 0);
        assert(found.contains(s[i]));
        let k = choose|k: int| 0 <= k < found.len() && found[k] == s[i];
        assert(date_key(found[k].time) == key);
    }
    assert forall|i: int, j: int| #![trigger s[i], s[j]] 0 <= i < j < s.len() implies {
        let a = s[i].time;
        let b = s[j].time;
        &&& date_key(a) == key && date_key(b) == key
        &&& (a.hour < b.hour || (a.hour == b.hour && (a.minute < b.minute || (a.minute == b.minute
            && (a.second < b.second || (a.second == b.second && a.nanosecond <= b.nanosecond))))))
        &&& (a.minute < 60 && a.second < 60 && b.minute < 60 && b.second < 60) ==> (a.hour * 3600
            + a.minute * 60 + a.second < b.hour * 3600 + b.minute * 60 + b.second || (a.hour * 3600
            + a.minute * 60 + a.second == b.hour * 3600 + b.minute * 60 + b.second && a.nanosecond
            <= b.nanosecond))
    } by {
        assert(date_key(s[i].time) == key && date_key(s[j].time) == key);
        assert(!time_lt(s[j].time, s[i].time));
    }
}

/// Time order is the order of the moments named: for two times with valid
/// calendar dates and clock fields in range, `time_lt` holds exactly when
/// the first comes before the second by (day number, seconds since
/// midnight, nanosecond).
pub proof fn lemma_time_order(a: ShotTime, b: ShotTime)
    requires
        1 <= a.month <= 12 && 1 <= a.day <= month_length(a.year as int, a.month as int),
        1 <= b.month <= 12 && 1 <= b.day <= month_length(b.year as int, b.month as int),
        a.hour < 24 && a.minute < 60 && a.second < 60,
        b.hour < 24 && b.minute < 60 && b.second < 60,
    ensures
        time_lt(a, b) <==> ({
            let da = day_number(a.year as int, a.month as int, a.day as int);
            let db = day_number(b.year as int, b.month as int, b.day as int);
            let sa = a.hour * 3600 + a.minute * 60 + a.second;
            let sb = b.hour * 3600 + b.minute * 60 + b.second;
            da < db || (da == db && (sa < sb || (sa == sb && a.nanosecond < b.nanosecond)))
        }),
{
    let ka = (a.year as int, a.month as int, a.day as int);
    let kb = (b.year as int, b.month as int, b.day as int);
    lemma_date_order(ka, kb);
    lemma_date_order(kb, ka);
}

/// Inserts `x` into the time-ordered `shots` after every shot not later than it.
pub fn insert_by_time(shots: &mut Vec<Shot>, x: Shot)
    ensures
        shot_views(final(shots)@) == insert_shot(shot_views(old(shots)@), x@),
{
    let ghost s = shot_views(shots@);
    let mut j = shots.len();
    proof {
        assert(s.take(j as int) =~= s);
    }
    while j > 0 && time_before(&x.time, &shots[j - 1].time)
        invariant
            j <= shots.len(),
            s == shot_views(shots@),
            insert_pos(s, x@) == insert_pos(s.take(j as int), x@),
        decreases j,
    {
        assert(s.take(j as int).drop_last() =~= s.take(j - 1));
        j = j - 1;
    }
    proof {
        lemma_insert_pos_bounds(s, x@);
        if j > 0 {
            assert(s.take(j as int).last() == s[j - 1]);
        }
        assert(insert_pos(s.take(j as int), x@) == j);
    }
    let ghost xv = x@;
    shots.insert(j, x);
    assert(shot_views(shots@) =~= s.take(j as int) + seq![xv] + s.skip(j as int));
}

/// The shots of one calendar day, in time order.
pub struct DayIndex {
    pub shots: Vec<Shot>,
}

impl DayIndex {
    /// The number of shots of the day in the timeline span `[a, b]`.
    pub fn shots_in_span(&self, a: u32, b: u32) -> (r: usize)
        ensures
            r == count_in_span(shot_views(self.shots@), a, b),
            r == shot_views(self.shots@).filter(
                |x: ShotView|
                    a <= x.time.hour * 3600 + x.time.minute * 60 + x.time.second <= b && !(x.time.hour
                        * 3600 + x.time.minute * 60 + x.time.second == b && x.time.nanosecond > 0),
            ).len(),
    {
        let ghost s = shot_views(self.shots@);
        let mut n: usize = 0;
        let mut i: usize = 0;
        while i < self.shots.len()
            invariant
                i <= self.shots.len(),
                s == shot_views(self.shots@),
                n == count_in_span(s.take(i as int), a, b),
                n <= i,
            decreases self.shots.len() - i,
        {
            assert(s.take(i + 1).drop_last() =~= s.take(i as int));
            if time_in_span(&self.shots[i].time, a, b) {
                n = n + 1;
            }
            i = i + 1;
        }
        assert(s.take(i as int) =~= s);
        proof {
            lemma_span_count(s, a, b);
        }
        n
    }

    pub open spec fn total(&self) -> int {
        shots_total(shot_views(self.shots@))
    }

    /// Seconds of screen time the day's shots stand for.
    pub fn total_duration_s(&self) -> (r: u64)
        requires
            self.total() <= u64::MAX,
        ensures
            r == self.total(),
    {
        let ghost s = shot_views(self.shots@);
        let mut acc: u64 = 0;
        let mut i: usize = 0;
        proof {
            lemma_shots_total_prefix_le(s, 0);
        }
        while i < self.shots.len()
            invariant
                i <= self.shots.len(),
                s == shot_views(self.shots@),
                shots_total(s) <= u64::MAX,
                acc == shots_total(s.take(i as int)),
            decreases self.shots.len() - i,
        {
            assert(s.take(i + 1).drop_last() =~= s.take(i as int));
            proof {
                lemma_shots_total_prefix_le(s, i + 1);
            }
            acc = acc + self.shots[i].duration_s;
            i = i + 1;
        }
        assert(s.take(i as int) =~= s);
        acc
    }
}

impl DayIndex {
    /// The day's seconds of screen time, or `None` where they overflow `u64`.
    pub fn checked_total_duration_s(&self) -> (r: Option<u64>)
        ensures
            r == (if self.total() <= u64::MAX {
                Some(self.total() as u64)
            } else {
                None::<u64>
            }),
    {
        let ghost s = shot_views(self.shots@);
        let mut acc: u64 = 0;
        let mut i: usize = 0;
        while i < self.shots.len()
            invariant
                i <= self.shots.len(),
                s == shot_views(self.shots@),
                acc == shots_total(s.take(i as int)),
            decreases self.shots.len() - i,
        {
            assert(s.take(i + 1).drop_last() =~= s.take(i as int));
            match acc.checked_add(self.shots[i].duration_s) {
                Some(t) => {
                    acc = t;
                },
                None => {
                    proof {
                        lemma_shots_total_prefix_le(s, i + 1);
                    }
                    return None;
                },
            }
            i = i + 1;
        }
        assert(s.take(i as int) =~= s);
        Some(acc)
    }
}

/// A prefix does not sum to more than the whole.
pub proof fn lemma_shots_total_prefix_le(s: Seq<ShotView>, k: int)
    requires
        0 <= k <= s.len(),
    ensures
        0 <= shots_total(s.take(k)) <= shots_total(s),
    decreases s.len(),
{
    if k < s.len() {
        assert(s.drop_last().take(k) =~= s.take(k));
        lemma_shots_total_prefix_le(s.drop_last(), k);
    } else {
        assert(s.take(k) =~= s);
        lemma_shots_total_nonneg(s);
    }
}

pub proof fn lemma_shots_total_nonneg(s: Seq<ShotView>)
    ensures
        shots_total(s) >= 0,
    decreases s.len(),
{
    if s.len() > 0 {
        lemma_shots_total_nonneg(s.drop_last());
    }
}

/// A PNG file of the archive, as the directory walk found it: the file
/// stem, the path, and the interval its sidecar records, if readable.
pub struct ShotFile {
    pub stem: String,
    pub png: String,
    pub sidecar_interval: Option<u64>,
}

/// What `chrono::NaiveDateTime::parse_from_str(stem, "%Y_%m_%d_%H_%M_%S")`
/// makes of a file stem, read as (year, month, day, hour, minute, second, nanosecond).
pub uninterp spec fn chrono_stem_time(stem: Seq<char>) -> Option<(i32, u32, u32, u32, u32, u32, u32)>;

/// `NaiveDateTime::parse_from_str(stem, "%Y_%m_%d_%H_%M_%S")`, read back into
/// its calendar and clock fields. Stated: the result is the named function of
/// the stem; which stems chrono accepts is left unsaid.
#[verifier::external_body]
fn parse_stem_fields(stem: &str) -> (r: Option<(i32, u32, u32, u32, u32, u32, u32)>)
    ensures
        r == chrono_stem_time(stem@),
{
    match chrono::NaiveDateTime::parse_from_str(stem, "%Y_%m_%d_%H_%M_%S") {
        Ok(t) => Some((
            t.year(),
            t.month(),
            t.day(),
            t.hour(),
            t.minute(),
            t.second(),
            t.nanosecond(),
        )),
        Err(_) => None,
    }
}

pub open spec fn stem_time(stem: Seq<char>) -> Option<ShotTime> {
    match chrono_stem_time(stem) {
        Some((year, month, day, hour, minute, second, nanosecond)) => Some(
            ShotTime { year, month, day, hour, minute, second, nanosecond },
        ),
        None => None,
    }
}

/// The time a screenshot's file stem names, when it names one.
pub fn parse_shot_time(stem: &str) -> (r: Option<ShotTime>)
    ensures
        r == stem_time(stem@),
{
    match parse_stem_fields(stem) {
        Some((year, month, day, hour, minute, second, nanosecond)) => Some(
            ShotTime { year, month, day, hour, minute, second, nanosecond },
        ),
        None => None,
    }
}

pub open spec fn file_shot(f: ShotFile, fallback: u64) -> Option<ShotView> {
    match stem_time(f.stem@) {
        Some(t) => Some(
            ShotView {
                time: t,
                png: f.png@,
                duration_s: match f.sidecar_interval {
                    Some(n) => n,
                    None => fallback,
                },
            },
        ),
        None => None,
    }
}

/// The shots of `files` that fall on day `key`, in the order of `files`.
pub open spec fn shots_on(files: Seq<ShotFile>, fallback: u64, key: (i32, u32, u32)) -> Seq<
    ShotView,
>
    decreases files.len(),
{
    if files.len() == 0 {
        seq![]
    } else {
        let rest = shots_on(files.drop_last(), fallback, key);
        match file_shot(files.last(), fallback) {
            Some(s) => if date_key(s.time) == key {
                rest.push(s)
            } else {
                rest
            },
            None => rest,
        }
    }
}

/// Whether some file of `files` names a time on day `key`.
pub open spec fn has_day(files: Seq<ShotFile>, key: (i32, u32, u32)) -> bool {
    exists|i: int|
        0 <= i < files.len() && #[trigger] stem_time(files[i].stem@) is Some && date_key(
            stem_time(files[i].stem@)->0,
        ) == key
}

/// Adds the seconds of day `k` of `m` to a running sum.
pub open spec fn day_weight(m: Map<(i32, u32, u32), DayIndex>) -> spec_fn(int, (i32, u32, u32)) -> int {
    |acc: int, k: (i32, u32, u32)| acc + m[k].total()
}

/// Seconds of screen time of all days of `m`.
pub open spec fn days_total(m: Map<(i32, u32, u32), DayIndex>) -> int {
    m.dom().fold(0int, day_weight(m))
}

proof fn lemma_day_weight_commutes(m: Map<(i32, u32, u32), DayIndex>)
    ensures
        is_fun_commutative(day_weight(m)),
{
    assert forall|a1: (i32, u32, u32), a2: (i32, u32, u32), b: int|
        #[trigger] day_weight(m)(day_weight(m)(b, a2), a1) == day_weight(m)(day_weight(m)(b, a1), a2) by {}
}

/// Adding days never lowers the sum.
proof fn lemma_fold_monotone(
    m: Map<(i32, u32, u32), DayIndex>,
    s: Set<(i32, u32, u32)>,
    t: Set<(i32, u32, u32)>,
)
    requires
        s <= t,
        t.finite(),
        is_fun_commutative(day_weight(m)),
    ensures
        s.finite(),
        s.fold(0int, day_weight(m)) <= t.fold(0int, day_weight(m)),
    decreases t.len(),
{
    vstd::set_lib::lemma_len_subset(s, t);
    if !(s =~= t) {
        let a = choose|a: (i32, u32, u32)| t.contains(a) && !s.contains(a);
        let t2 = t.remove(a);
        lemma_fold_monotone(m, s, t2);
        vstd::set::fold::lemma_fold_insert(t2, 0int, day_weight(m), a);
        assert(t2.insert(a) =~= t);
        lemma_shots_total_nonneg(shot_views(m[a].shots@));
    }
}

/// The screenshot archive, by calendar day.
pub struct Index {
    pub days: BTreeMap<(i32, u32, u32), DayIndex>,
}

impl Index {
    /// The days of the index and, for each, its shots.
    pub open spec fn shots_of(&self, key: (i32, u32, u32)) -> Seq<ShotView> {
        shot_views(self.days@[key].shots@)
    }

    /// Seconds of screen time of all days.
    pub open spec fn total(&self) -> int {
        days_total(self.days@)
    }

    /// Seconds of screen time of all shots of the archive.
    pub fn total_duration_s(&self) -> (r: u64)
        requires
            self.total() <= u64::MAX,
        ensures
            r == self.total(),
    {
        let ghost m = self.days@;
        let mut acc: u64 = 0;
        let ghost mut seen: Set<(i32, u32, u32)> = Set::empty();
        let ghost v0 = spec_btree_map_iter(&self.days).remaining();
        let ghost mut n: int = 0;
        proof {
            lemma_day_weight_commutes(m);
            lemma_day_keys_ordered();
            vstd::set::fold::lemma_fold_empty(0int, day_weight(m));
        }
        for kv in it: self.days.iter()
            invariant
                m == self.days@,
                m.dom().finite(),
                is_fun_commutative(day_weight(m)),
                days_total(m) <= u64::MAX,
                it.seq() == v0,
                v0 == spec_btree_map_iter(&self.days).remaining(),
                v0.no_duplicates(),
                n == it.index(),
                seen.finite(),
                seen <= m.dom(),
                forall|j: int| 0 <= j < it.index() ==> seen.contains(*#[trigger] it.seq()[j].0),
                forall|k: (i32, u32, u32)| #[trigger] seen.contains(k) ==> exists|j: int|
                    0 <= j < it.index() && *it.seq()[j].0 == k,
                acc == seen.fold(0int, day_weight(m)),
        {
            let ghost i = it.index() as int;
            let ghost v = it.seq();
            let (k, d) = kv;
            proof {
                assert(m.contains_key(*v[i].0) && m[*v[i].0] == *v[i].1);
                if seen.contains(*k) {
                    let j = choose|j: int| 0 <= j < i && *v[j].0 == *k;
                    assert(m[*v[j].0] == *v[j].1);
                    assert(v[j] == v[i]);
                }
                vstd::set::fold::lemma_fold_insert(seen, 0int, day_weight(m), *k);
                lemma_fold_monotone(m, seen.insert(*k), m.dom());
                lemma_fold_monotone(m, Set::empty().insert(*k), m.dom());
                vstd::set::fold::lemma_fold_empty(0int, day_weight(m));
                vstd::set::fold::lemma_fold_insert(Set::empty(), 0int, day_weight(m), *k);
            }
            let t = d.total_duration_s();
            acc = acc + t;
            proof {
                seen = seen.insert(*k);
                n = n + 1;
            }
        }
        proof {
            assert forall|k: (i32, u32, u32)| m.dom().contains(k) implies seen.contains(k) by {
                let v = v0;
                assert(n == v.len());
                assert(v.contains((&k, &m[k])));
                let j = choose|j: int| 0 <= j < v.len() && v[j] == (&k, &m[k]);
                assert(seen.contains(*v[j].0));
            }
            assert(seen =~= m.dom());
        }
        acc
    }

    /// Seconds of screen time of all shots, or `None` where they overflow
    /// `u64`; when they do not, no day's total overflows either.
    pub fn checked_total_duration_s(&self) -> (r: Option<u64>)
        ensures
            r == (if self.total() <= u64::MAX {
                Some(self.total() as u64)
            } else {
                None::<u64>
            }),
            r is Some ==> forall|k: (i32, u32, u32)| #[trigger]
                self.days@.contains_key(k) ==> self.days@[k].total() <= self.total(),
    {
        let ghost m = self.days@;
        let mut acc: u64 = 0;
        let ghost mut seen: Set<(i32, u32, u32)> = Set::empty();
        let ghost v0 = spec_btree_map_iter(&self.days).remaining();
        let ghost mut n: int = 0;
        proof {
            lemma_day_weight_commutes(m);
            lemma_day_keys_ordered();
            vstd::set::fold::lemma_fold_empty(0int, day_weight(m));
        }
        for kv in it: self.days.iter()
            invariant
                m == self.days@,
                m.dom().finite(),
                is_fun_commutative(day_weight(m)),
                it.seq() == v0,
                v0 == spec_btree_map_iter(&self.days).remaining(),
                v0.no_duplicates(),
                n == it.index(),
                seen.finite(),
                seen <= m.dom(),
                forall|j: int| 0 <= j < it.index() ==> seen.contains(*#[trigger] it.seq()[j].0),
                forall|k: (i32, u32, u32)| #[trigger] seen.contains(k) ==> exists|j: int|
                    0 <= j < it.index() && *it.seq()[j].0 == k,
                acc == seen.fold(0int, day_weight(m)),
        {
            let ghost i = it.index() as int;
            let ghost v = it.seq();
            let (k, d) = kv;
            proof {
                assert(m.contains_key(*v[i].0) && m[*v[i].0] == *v[i].1);
                if seen.contains(*k) {
                    let j = choose|j: int| 0 <= j < i && *v[j].0 == *k;
                    assert(m[*v[j].0] == *v[j].1);
                    assert(v[j] == v[i]);
                }
                vstd::set::fold::lemma_fold_insert(seen, 0int, day_weight(m), *k);
                lemma_fold_monotone(m, seen.insert(*k), m.dom());
                lemma_fold_monotone(m, Set::empty().insert(*k), m.dom());
                vstd::set::fold::lemma_fold_empty(0int, day_weight(m));
                vstd::set::fold::lemma_fold_insert(Set::empty(), 0int, day_weight(m), *k);
                lemma_fold_monotone(m, seen, m.dom());
            }
            proof {
                lemma_shots_total_nonneg(shot_views(d.shots@));
            }
            let t = match d.checked_total_duration_s() {
                Some(t) => t,
                None => {
                    return None;
                },
            };
            match acc.checked_add(t) {
                Some(a) => {
                    acc = a;
                },
                None => {
                    return None;
                },
            }
            proof {
                seen = seen.insert(*k);
                n = n + 1;
            }
        }
        proof {
            assert forall|k: (i32, u32, u32)| m.dom().contains(k) implies seen.contains(k) by {
                let v = v0;
                assert(n == v.len());
                assert(v.contains((&k, &m[k])));
                let j = choose|j: int| 0 <= j < v.len() && v[j] == (&k, &m[k]);
                assert(seen.contains(*v[j].0));
            }
            assert(seen =~= m.dom());
            assert forall|k: (i32, u32, u32)| #[trigger] m.contains_key(k) implies m[k].total()
                <= days_total(m) by {
                lemma_fold_monotone(m, Set::empty().insert(k), m.dom());
                vstd::set::fold::lemma_fold_empty(0int, day_weight(m));
                vstd::set::fold::lemma_fold_insert(Set::empty(), 0int, day_weight(m), k);
                lemma_shots_total_nonneg(shot_views(m[k].shots@));
            }
        }
        Some(acc)
    }

    /// The index of the files found: a file whose stem names no time is
    /// left out; a shot lasts what its sidecar says, else `fallback_interval_s`;
    /// each day's shots come in time order, equal times in the order found.
    pub fn from_files(files: &Vec<ShotFile>, fallback_interval_s: u64) -> (r: Index)
        ensures
            forall|key: (i32, u32, u32)| #[trigger]
                r.days@.contains_key(key) <==> has_day(files@, key),
            forall|key: (i32, u32, u32)| #[trigger]
                r.days@.contains_key(key) ==> r.shots_of(key) == sort_shots(
                    shots_on(files@, fallback_interval_s, key),
                ),
            forall|key: (i32, u32, u32)| #[trigger]
                r.days@.contains_key(key) ==> day_in_order(r.shots_of(key), key),
    {
        proof {
            lemma_day_keys_ordered();
        }
        let mut days: BTreeMap<(i32, u32, u32), DayIndex> = BTreeMap::new();
        let mut i: usize = 0;
        while i < files.len()
            invariant
                i <= files.len(),
                day_keys_ordered(),
                forall|key: (i32, u32, u32)| #[trigger]
                    days@.contains_key(key) <==> has_day(files@.take(i as int), key),
                forall|key: (i32, u32, u32)| #[trigger]
                    days@.contains_key(key) ==> shot_views(days@[key].shots@) == sort_shots(
                        shots_on(files@.take(i as int), fallback_interval_s, key),
                    ),
                forall|key: (i32, u32, u32)|
                    !days@.contains_key(key) ==> #[trigger] shots_on(
                        files@.take(i as int),
                        fallback_interval_s,
                        key,
                    ) == Seq::<ShotView>::empty(),
            decreases files.len() - i,
        {
            let ghost prev = files@.take(i as int);
            let ghost next = files@.take(i + 1);
            assert(next.drop_last() =~= prev);
            assert(next.last() == files@[i as int]);
            let f = &files[i];
            match parse_shot_time(f.stem.as_str()) {
                None => {
                    assert forall|key: (i32, u32, u32)| has_day(next, key) == has_day(prev, key) by {
                        if has_day(next, key) {
                            let j = choose|j: int|
                                0 <= j < next.len() && #[trigger] stem_time(next[j].stem@) is Some
                                    && date_key(stem_time(next[j].stem@)->0) == key;
                            assert(prev[j] == next[j]);
                        }
                        if has_day(prev, key) {
                            let j = choose|j: int|
                                0 <= j < prev.len() && #[trigger] stem_time(prev[j].stem@) is Some
                                    && date_key(stem_time(prev[j].stem@)->0) == key;
                            assert(prev[j] == next[j]);
                        }
                    }
                    assert(forall|key: (i32, u32, u32)|
                        #[trigger] shots_on(next, fallback_interval_s, key) == shots_on(
                            prev,
                            fallback_interval_s,
                            key,
                        ));
                },
                Some(t) => {
                    let duration_s = match f.sidecar_interval {
                        Some(n) => n,
                        None => fallback_interval_s,
                    };
                    let shot = Shot { time: t, png: f.png.clone(), duration_s };
                    let key = (t.year, t.month, t.day);
                    let ghost sv = shot@;
                    assert(file_shot(files@[i as int], fallback_interval_s) == Some(sv));
                    let mut day = match days.remove(&key) {
                        Some(d) => d,
                        None => DayIndex { shots: Vec::new() },
                    };
                    assert(shot_views(day.shots@) == sort_shots(
                        shots_on(prev, fallback_interval_s, key),
                    ));
                    insert_by_time(&mut day.shots, shot);
                    assert(shots_on(next, fallback_interval_s, key) == shots_on(
                        prev,
                        fallback_interval_s,
                        key,
                    ).push(sv));
                    assert(shots_on(next, fallback_interval_s, key).drop_last() =~= shots_on(
                        prev,
                        fallback_interval_s,
                        key,
                    ));
                    days.insert(key, day);
                    assert forall|k: (i32, u32, u32)| has_day(next, k) == (has_day(prev, k) || k == key) by {
                        if has_day(next, k) {
                            let j = choose|j: int|
                                0 <= j < next.len() && #[trigger] stem_time(next[j].stem@) is Some
                                    && date_key(stem_time(next[j].stem@)->0) == k;
                            if j < prev.len() {
                                assert(prev[j] == next[j]);
                            }
                        }
                        if has_day(prev, k) {
                            let j = choose|j: int|
                                0 <= j < prev.len() && #[trigger] stem_time(prev[j].stem@) is Some
                                    && date_key(stem_time(prev[j].stem@)->0) == k;
                            assert(prev[j] == next[j]);
                        }
                        if k == key {
                            assert(stem_time(next[i as int].stem@) is Some);
                        }
                    }
                    assert(forall|k: (i32, u32, u32)|
                        k != key ==> #[trigger] shots_on(next, fallback_interval_s, k) == shots_on(
                            prev,
                            fallback_interval_s,
                            k,
                        ));
                },
            }
            i = i + 1;
        }
        assert(files@.take(i as int) =~= files@);
        let r = Index { days };
        proof {
            assert forall|key: (i32, u32, u32)| r.days@.contains_key(key) implies day_in_order(
                r.shots_of(key),
                key,
            ) by {
                let found = shots_on(files@, fallback_interval_s, key);
                lemma_shots_on_date(files@, fallback_interval_s, key);
                lemma_sort_shots(found);
                lemma_sorted_day_in_order(sort_shots(found), found, key);
            }
        }
        r
    }
}

/// Whether day `k` lies in `month` of `year`.
pub open spec fn in_month(k: (i32, u32, u32), year: i32, month: u32) -> bool {
    k.0 == year && k.1 == month
}

/// The largest day total of `month` of `year` in the index, 0 when it has no day there.
pub fn month_max_duration(index: &Index, year: i32, month: u32) -> (r: u64)
    requires
        forall|k: (i32, u32, u32)|
            #[trigger] index.days@.contains_key(k) && in_month(k, year, month)
                ==> index.days@[k].total() <= u64::MAX,
    ensures
        forall|k: (i32, u32, u32)|
            #[trigger] index.days@.contains_key(k) && in_month(k, year, month)
                ==> index.days@[k].total() <= r,
        r == 0 || exists|k: (i32, u32, u32)|
            #[trigger] index.days@.contains_key(k) && in_month(k, year, month)
                && index.days@[k].total() == r,
{
    let ghost m = index.days@;
    let ghost v0 = spec_btree_map_iter(&index.days).remaining();
    let ghost mut n: int = 0;
    let mut best: u64 = 0;
    proof {
        lemma_day_keys_ordered();
    }
    for kv in it: index.days.iter()
        invariant
            m == index.days@,
            it.seq() == v0,
            v0 == spec_btree_map_iter(&index.days).remaining(),
            n == it.index(),
            forall|k: (i32, u32, u32)|
                #[trigger] m.contains_key(k) && in_month(k, year, month) ==> m[k].total()
                    <= u64::MAX,
            forall|j: int|
                0 <= j < n && in_month(*v0[j].0, year, month) ==> m[*v0[j].0].total() <= best,
            best == 0 || exists|k: (i32, u32, u32)|
                #[trigger] m.contains_key(k) && in_month(k, year, month) && m[k].total() == best,
    {
        let ghost i = n;
        let (k, d) = kv;
        proof {
            assert(m.contains_key(*v0[i].0) && m[*v0[i].0] == *v0[i].1);
        }
        if k.0 == year && k.1 == month {
            let t = d.total_duration_s();
            if t > best {
                best = t;
            }
        }
        proof {
            n = n + 1;
        }
    }
    proof {
        assert forall|k: (i32, u32, u32)|
            #[trigger] m.contains_key(k) && in_month(k, year, month) implies m[k].total() <= best by {
            assert(n == v0.len());
            assert(v0.contains((&k, &m[k])));
            let j = choose|j: int| 0 <= j < v0.len() && v0[j] == (&k, &m[k]);
            assert(*v0[j].0 == k);
        }
    }
    best
}

} // verus!
