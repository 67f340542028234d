//! The viewer's selection state and how input moves it.

use std::sync::Arc;
use vstd::prelude::*;
use crate::clock::local_now;
use crate::viewer::index::{DayIndex, Index};
use crate::viewer::keys::lemma_day_keys_ordered;
use crate::viewer::calendar::{day_number, lemma_date_order, month_length};
use vstd::std_specs::btree::spec_btree_map_iter;
use vstd::std_specs::iter::IteratorSpec;

verus! {

/// Lexicographic order of day keys.
pub open spec fn key_le(a: (i32, u32, u32), b: (i32, u32, u32)) -> bool {
    a.0 < b.0 || (a.0 == b.0 && (a.1 < b.1 || (a.1 == b.1 && a.2 <= b.2)))
}

fn key_leq(a: (i32, u32, u32), b: (i32, u32, u32)) -> (r: bool)
    ensures
        r == key_le(a, b),
{
    a.0 < b.0 || (a.0 == b.0 && (a.1 < b.1 || (a.1 == b.1 && a.2 <= b.2)))
}


/// Day keys compare as the dates they name: for two dates of the calendar,
/// `key_le` holds exactly when the first is not later, by day number, than
/// the second. So the latest key is the latest date.
pub proof fn lemma_key_le_is_date_order(a: (i32, u32, u32), b: (i32, u32, u32))
    requires
        1 <= a.1 <= 12 && 1 <= a.2 <= month_length(a.0 as int, a.1 as int),
        1 <= b.1 <= 12 && 1 <= b.2 <= month_length(b.0 as int, b.1 as int),
    ensures
        key_le(a, b) <==> day_number(a.0 as int, a.1 as int, a.2 as int) <= day_number(
            b.0 as int,
            b.1 as int,
            b.2 as int,
        ),
{
    lemma_date_order((a.0 as int, a.1 as int, a.2 as int), (b.0 as int, b.1 as int, b.2 as int));
}

/// The latest day of `index`, if it has any.
pub fn last_day(index: &Index) -> (r: Option<(i32, u32, u32)>)
    ensures
        r is None <==> index.days@.dom().is_empty(),
        r matches Some(k) ==> index.days@.contains_key(k) && forall|j: (i32, u32, u32)|
            #[trigger] index.days@.contains_key(j) ==> key_le(j, k),
        r matches Some(k) ==> forall|j: (i32, u32, u32)| #[trigger]
            index.days@.contains_key(j) ==> j.0 < k.0 || (j.0 == k.0 && (j.1 < k.1 || (j.1 == k.1
                && j.2 <= k.2))),
{
    let ghost m = index.days@;
    let ghost v0 = spec_btree_map_iter(&index.days).remaining();
    let ghost mut n: int = 0;
    let mut best: Option<(i32, u32, u32)> = None;
    proof {
        lemma_day_keys_ordered();
    }
    for kv in it: index.days.iter()
        invariant
            m == index.days@,
            it.seq() == v0,
            v0 == spec_btree_map_iter(&index.days).remaining(),
            n == it.index(),
            best is None <==> n == 0,
            best matches Some(b) ==> m.contains_key(b) && forall|j: int|
                0 <= j < n ==> key_le(*#[trigger] v0[j].0, b),
    {
        let ghost i = n;
        let (k, _d) = kv;
        proof {
            assert(m.contains_key(*v0[i].0));
        }
        match best {
            None => {
                best = Some(*k);
            },
            Some(b) => {
                if key_leq(b, *k) {
                    best = Some(*k);
                }
            },
        }
        proof {
            n = n + 1;
        }
    }
    proof {
        assert(n == v0.len());
        if best is None {
            if !m.dom().is_empty() {
                let k = m.dom().choose();
                assert(v0.contains((&k, &m[k])));
            }
            assert(m.dom() =~= Set::empty());
        } else {
            assert forall|j: (i32, u32, u32)| #[trigger] m.contains_key(j) implies key_le(
                j,
                best->0,
            ) by {
                assert(v0.contains((&j, &m[j])));
                let t = choose|t: int| 0 <= t < v0.len() && v0[t] == (&j, &m[j]);
                assert(*v0[t].0 == j);
            }
        }
    }
    best
}

/// The shots of day `day` in `index`, if the index has that day.
pub fn day_of<'a>(index: &'a Index, day: (i32, u32, u32)) -> (r: Option<&'a DayIndex>)
    ensures
        r is Some <==> index.days@.contains_key(day),
        r matches Some(d) ==> *d == index.days@[day],
{
    proof {
        lemma_day_keys_ordered();
    }
    index.days.get(&day)
}

/// The first shot of `day`, when the day has shots in `index`.
pub open spec fn first_shot(index: &Index, day: (i32, u32, u32)) -> Option<usize> {
    if index.days@.contains_key(day) && index.days@[day].shots.len() > 0 {
        Some(0)
    } else {
        None
    }
}

/// The last shot of `day`, when the day has shots in `index`.
pub open spec fn last_shot(index: &Index, day: (i32, u32, u32)) -> Option<usize> {
    if index.days@.contains_key(day) && index.days@[day].shots.len() > 0 {
        Some((index.days@[day].shots.len() - 1) as usize)
    } else {
        None
    }
}

/// What the viewer shows: a day, a shot of it, a span of its timeline
/// (seconds since midnight), the month on display in the calendar, and the
/// shot the thumbnail strip last scrolled to.
pub struct ViewerApp {
    pub index: Arc<Index>,
    pub selected_day: Option<(i32, u32, u32)>,
    pub selected_shot: Option<usize>,
    pub selected_range: Option<(u32, u32)>,
    pub view_year: i32,
    pub view_month: u32,
    pub last_focused: Option<((i32, u32, u32), usize)>,
}

/// Today's date on the local clock; `None` when the clock gives no date.
pub fn local_today() -> (r: Option<(i32, u32, u32)>)
    ensures
        r matches Some(d) ==> 1 <= d.1 <= 12 && 1 <= d.2 <= 31,
{
    match local_now() {
        Some(t) => Some((t.0, t.1, t.2)),
        None => None,
    }
}

impl ViewerApp {
    /// The viewer opened on `index` with `today` as the current date: the
    /// latest day and its last shot selected, the calendar on that day's
    /// month (on today's month when the index is empty).
    pub fn new_on(index: Index, today: (i32, u32, u32)) -> (r: Self)
        ensures
            *r.index == index,
            r.selected_range is None,
            r.last_focused is None,
            r.selected_day matches Some(k) ==> index.days@.contains_key(k) && forall|
                j: (i32, u32, u32),
            | #[trigger] index.days@.contains_key(j) ==> key_le(j, k),
            r.selected_day matches Some(k) ==> forall|j: (i32, u32, u32)| #[trigger]
                index.days@.contains_key(j) ==> j.0 < k.0 || (j.0 == k.0 && (j.1 < k.1 || (j.1
                    == k.1 && j.2 <= k.2))),
            r.selected_day is None <==> index.days@.dom().is_empty(),
            r.selected_shot == match r.selected_day {
                Some(k) => last_shot(&index, k),
                None => None,
            },
            (r.view_year, r.view_month) == match r.selected_day {
                Some(k) => (k.0, k.1),
                None => (today.0, today.1),
            },
    {
        let selected_day = last_day(&index);
        let selected_shot = match selected_day {
            Some(k) => match day_of(&index, k) {
                Some(d) => if d.shots.len() == 0 {
                    None
                } else {
                    Some(d.shots.len() - 1)
                },
                None => None,
            },
            None => None,
        };
        let anchor = match selected_day {
            Some(k) => k,
            None => today,
        };
        ViewerApp {
            index: Arc::new(index),
            selected_day,
            selected_shot,
            selected_range: None,
            view_year: anchor.0,
            view_month: anchor.1,
            last_focused: None,
        }
    }

    /// The viewer opened on `index`, today's date read from the local clock
    /// (1970-01-01 when the clock gives none).
    pub fn new(index: Index) -> (r: Self)
        ensures
            *r.index == index,
            r.selected_range is None,
            r.last_focused is None,
            r.selected_day matches Some(k) ==> index.days@.contains_key(k) && forall|
                j: (i32, u32, u32),
            | #[trigger] index.days@.contains_key(j) ==> key_le(j, k),
            r.selected_day matches Some(k) ==> forall|j: (i32, u32, u32)| #[trigger]
                index.days@.contains_key(j) ==> j.0 < k.0 || (j.0 == k.0 && (j.1 < k.1 || (j.1
                    == k.1 && j.2 <= k.2))),
            r.selected_day is None <==> index.days@.dom().is_empty(),
            r.selected_shot == match r.selected_day {
                Some(k) => last_shot(&index, k),
                None => None,
            },
            r.selected_day matches Some(k) ==> (r.view_year, r.view_month) == (k.0, k.1),
            1 <= r.view_month <= 12 || r.selected_day is Some,
    {
        let today = match local_today() {
            Some(d) => d,
            None => (1970, 1, 1),
        };
        Self::new_on(index, today)
    }

    /// Selects `day` (a click on its calendar cell): its first shot, no span.
    pub fn select_day(&mut self, day: (i32, u32, u32))
        ensures
            final(self).index == old(self).index,
            final(self).selected_day == Some(day),
            final(self).selected_shot == first_shot(&old(self).index, day),
            final(self).selected_range is None,
            final(self).view_year == old(self).view_year,
            final(self).view_month == old(self).view_month,
            final(self).last_focused == old(self).last_focused,
    {
        let shot = match day_of(&self.index, day) {
            Some(d) => if d.shots.len() == 0 {
                None
            } else {
                Some(0)
            },
            None => None,
        };
        self.selected_day = Some(day);
        self.selected_shot = shot;
        self.selected_range = None;
    }

    /// The "Today" button: the calendar goes to `today`'s month and selects it.
    pub fn go_to_day(&mut self, today: (i32, u32, u32))
        ensures
            final(self).index == old(self).index,
            final(self).view_year == today.0,
            final(self).view_month == today.1,
            final(self).selected_day == Some(today),
            final(self).selected_shot == first_shot(&old(self).index, today),
            final(self).selected_range is None,
            final(self).last_focused == old(self).last_focused,
    {
        self.view_year = today.0;
        self.view_month = today.1;
        self.select_day(today);
    }

    /// The arrow keys: one shot back (`prev`) or forward (`next`, which wins
    /// when both are down) within the selected day, held at its ends; nothing
    /// happens without a key, a selected day of the index, or shots on it.
    pub fn step_shot(&mut self, prev: bool, next: bool)
        requires
            !step_overflows(&old(self).index, old(self).selected_day, old(self).selected_shot, next),
        ensures
            final(self).index == old(self).index,
            final(self).selected_day == old(self).selected_day,
            final(self).selected_range == old(self).selected_range,
            final(self).view_year == old(self).view_year,
            final(self).view_month == old(self).view_month,
            final(self).last_focused == old(self).last_focused,
            final(self).selected_shot == step_target(
                &old(self).index,
                old(self).selected_day,
                old(self).selected_shot,
                prev,
                next,
            ),
    {
        if !(prev || next) {
            return;
        }
        let day = match self.selected_day {
            Some(d) => d,
            None => return ,
        };
        let n = match day_of(&self.index, day) {
            Some(d) => d.shots.len(),
            None => return ,
        };
        if n == 0 {
            return;
        }
        let cur = match self.selected_shot {
            Some(c) => c,
            None => 0,
        };
        let new = if next {
            if cur + 1 < n {
                cur + 1
            } else {
                n - 1
            }
        } else {
            if cur > 0 {
                cur - 1
            } else {
                0
            }
        };
        self.selected_shot = Some(new);
    }
}

/// The arrow keys keep a selection on a shot of the selected day there (and
/// select one where none was), and a step forward from a shot that is not
/// the last is undone by a step back.
pub proof fn lemma_step_shot(
    index: &Index,
    day: Option<(i32, u32, u32)>,
    shot: Option<usize>,
    prev: bool,
    next: bool,
)
    requires
        prev || next,
        day is Some,
        index.days@.contains_key(day->0),
        index.days@[day->0].shots.len() > 0,
        shot matches Some(c) ==> c < index.days@[day->0].shots.len(),
    ensures
        step_target(index, day, shot, prev, next) matches Some(x) && x
            < index.days@[day->0].shots.len(),
        (shot matches Some(c) && c + 1 < index.days@[day->0].shots.len()) ==> step_target(
            index,
            day,
            step_target(index, day, shot, false, true),
            true,
            false,
        ) == shot,
{
}

/// Whether stepping forward would add one to `usize::MAX`.
pub open spec fn step_overflows(
    index: &Index,
    day: Option<(i32, u32, u32)>,
    shot: Option<usize>,
    next: bool,
) -> bool {
    &&& next
    &&& shot == Some(usize::MAX)
    &&& day is Some
    &&& index.days@.contains_key(day->0)
    &&& index.days@[day->0].shots.len() > 0
}

/// Where the arrow keys take the selected shot.
pub open spec fn step_target(
    index: &Index,
    day: Option<(i32, u32, u32)>,
    shot: Option<usize>,
    prev: bool,
    next: bool,
) -> Option<usize> {
    if !(prev || next) {
        shot
    } else {
        match day {
            None => shot,
            Some(d) => if !index.days@.contains_key(d) || index.days@[d].shots.len() == 0 {
                shot
            } else {
                let n = index.days@[d].shots.len() as int;
                let cur = match shot {
                    Some(c) => c as int,
                    None => 0,
                };
                Some(
                    (if next {
                        if cur + 1 < n {
                            cur + 1
                        } else {
                            n - 1
                        }
                    } else {
                        if cur > 0 {
                            cur - 1
                        } else {
                            0
                        }
                    }) as usize,
                )
            },
        }
    }
}

} // verus!
