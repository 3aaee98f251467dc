use vstd::prelude::*;

use crate::interval::{compute_free, is_free_of, Interval};

verus! {

/// Largest magnitude of a timestamp the library holds, so that any difference of
/// two timestamps, or a timestamp plus a day, fits in an `i64`.
pub const TIMESTAMP_LIMIT: i64 = 2305843009213693952;

/// Length of the service day that `open` looks at, in seconds.
pub const DAY_SECONDS: i64 = 86400;

pub open spec fn in_range(t: int) -> bool {
    -TIMESTAMP_LIMIT <= t <= TIMESTAMP_LIMIT
}

pub open spec fn intervals_in_range(s: Seq<Interval>) -> bool {
    forall|i: int| 0 <= i < s.len() ==> in_range(#[trigger] s[i].0 as int) && in_range(s[i].1 as int)
}

/// A room, its busy intervals and the free intervals last derived from them.
pub struct Room {
    pub name: String,
    pub slots: Vec<Interval>,
    pub availability: Vec<Interval>,
}

impl Room {
    /// A room with no busy and no free intervals.
    pub fn new(name: String) -> (r: Room)
        ensures
            r.name@ == name@,
            r.slots@.len() == 0,
            r.availability@.len() == 0,
    {
        Room { name, slots: Vec::new(), availability: Vec::new() }
    }

    /// Derives the free intervals of the room from `current_timestamp` up to `horizon`.
    pub fn compute_availability(&mut self, current_timestamp: i64, horizon: i64)
        ensures
            final(self).name == old(self).name,
            final(self).slots == old(self).slots,
            is_free_of(
                final(self).availability@,
                old(self).slots@.to_set(),
                current_timestamp as int,
                horizon as int,
            ),
    {
        self.availability = compute_free(&self.slots, current_timestamp, horizon);
    }
}

/// Whether a room is free or taken at the reference instant.
#[derive(PartialEq, Eq, Structural, Clone, Copy, Debug)]
pub enum Occupancy {
    Available,
    Unavailable,
}

impl Occupancy {
    pub fn label(&self) -> (r: &'static str)
        ensures
            *self == Occupancy::Available ==> r@ == "available"@,
            *self == Occupancy::Unavailable ==> r@ == "unavailable"@,
    {
        match self {
            Occupancy::Available => "available",
            Occupancy::Unavailable => "unavailable",
        }
    }
}

pub open spec fn holds_at(x: Interval, t: int) -> bool {
    x.0 <= t < x.1
}

/// `a` comes no later than `b`, ordering by start and then by end.
pub open spec fn lex_le(a: Interval, b: Interval) -> bool {
    a.0 < b.0 || (a.0 == b.0 && a.1 <= b.1)
}

/// `x` is the first interval of `busy`, in ascending order, that contains `t`.
pub open spec fn first_holding(busy: Set<Interval>, t: int, x: Interval) -> bool {
    &&& busy.contains(x)
    &&& holds_at(x, t)
    &&& forall|y: Interval| busy.contains(y) && holds_at(y, t) ==> lex_le(x, y)
}

/// Some interval of `busy` starts after `t`.
pub open spec fn starts_after(busy: Set<Interval>, t: int) -> bool {
    exists|x: Interval| #[trigger] busy.contains(x) && x.0 > t
}

/// `s` is the earliest start of an interval of `busy` after `t`.
pub open spec fn next_start(busy: Set<Interval>, t: int, s: int) -> bool {
    &&& exists|x: Interval| #[trigger] busy.contains(x) && x.0 == s
    &&& s > t
    &&& forall|x: Interval| #[trigger] busy.contains(x) && x.0 > t ==> s <= x.0
}

/// Some busy interval lies wholly within the service day that starts at `day_start`.
pub open spec fn open_on_day(busy: Set<Interval>, day_start: int) -> bool {
    exists|x: Interval| #[trigger] busy.contains(x) && day_start <= x.0 && x.1 <= day_start + DAY_SECONDS
}

/// The status of a room with busy intervals `busy` at instant `reference`.
/// Scanning the intervals in ascending order, the first one that contains the
/// reference makes the room available until its end; failing that, the first one
/// that starts after the reference makes it unavailable until that start; failing
/// both, it is unavailable for an unknown time, written `-1`. `open` tells whether
/// any interval lies within the service day starting at `day_start`.
#[verifier::opaque]
pub open spec fn status_spec(
    busy: Set<Interval>,
    reference: int,
    day_start: int,
    r: (Occupancy, i64, bool),
) -> bool {
    &&& r.2 == open_on_day(busy, day_start)
    &&& (exists|x: Interval| busy.contains(x) && holds_at(x, reference)) ==> {
        &&& r.0 == Occupancy::Available
        &&& exists|x: Interval| first_holding(busy, reference, x) && r.1 == x.1 - reference
    }
    &&& (!exists|x: Interval| busy.contains(x) && holds_at(x, reference)) ==> {
        &&& r.0 == Occupancy::Unavailable
        &&& starts_after(busy, reference) ==> next_start(busy, reference, r.1 + reference)
        &&& !starts_after(busy, reference) ==> r.1 == -1
    }
}

/// The status of a room with busy intervals `busy` at `reference`: whether it is
/// available, for how many seconds that lasts (`-1` when unknown), and whether it has
/// any interval within the service day that starts at `day_start`.
pub fn status_at(busy: &Vec<Interval>, reference: i64, day_start: i64) -> (r: (Occupancy, i64, bool))
    requires
        intervals_in_range(busy@),
        in_range(reference as int),
        in_range(day_start as int),
    ensures
        status_spec(busy@.to_set(), reference as int, day_start as int, r),
{
    let mut best: Option<Interval> = None;
    let mut next: Option<i64> = None;
    let mut open = false;
    let mut i: usize = 0;
    while i < busy.len()
        invariant
            i <= busy.len(),
            intervals_in_range(busy@),
            in_range(reference as int),
            in_range(day_start as int),
            open == exists|k: int|
                0 <= k < i && day_start <= #[trigger] busy@[k].0 && busy@[k].1 <= day_start
                    + DAY_SECONDS,
            best is None ==> forall|k: int| 0 <= k < i ==> !holds_at(#[trigger] busy@[k], reference as int),
            best matches Some(x) ==> {
                &&& busy@.contains(x)
                &&& holds_at(x, reference as int)
                &&& forall|k: int|
                    0 <= k < i && holds_at(#[trigger] busy@[k], reference as int) ==> lex_le(x, busy@[k])
            },
            next is None ==> forall|k: int| 0 <= k < i ==> #[trigger] busy@[k].0 <= reference,
            next matches Some(s) ==> {
                &&& exists|k: int| 0 <= k < busy@.len() && #[trigger] busy@[k].0 == s
                &&& s > reference
                &&& forall|k: int| 0 <= k < i && #[trigger] busy@[k].0 > reference ==> s <= busy@[k].0
            },
        decreases busy.len() - i,
    {
        let (start, end) = busy[i];
        if day_start <= start && end <= day_start + DAY_SECONDS {
            open = true;
        }
        if start <= reference && reference < end {
            match best {
                None => {
                    best = Some((start, end));
                },
                Some(x) => {
                    if start < x.0 || (start == x.0 && end < x.1) {
                        best = Some((start, end));
                    }
                },
            }
        } else if start > reference {
            match next {
                None => {
                    next = Some(start);
                },
                Some(s) => {
                    if start < s {
                        next = Some(start);
                    }
                },
            }
        }
        assert(busy@[i as int] == (start, end));
        i = i + 1;
    }
    proof {
        if open {
            let k = choose|k: int|
                0 <= k < busy@.len() && day_start <= #[trigger] busy@[k].0 && busy@[k].1 <= day_start
                    + DAY_SECONDS;
            assert(busy@.to_set().contains(busy@[k]));
        } else {
            assert forall|x: Interval| !(#[trigger] busy@.to_set().contains(x) && day_start <= x.0 && x.1 <= day_start + DAY_SECONDS) by {
                if busy@.to_set().contains(x) {
                    let m = choose|m: int| 0 <= m < busy@.len() && #[trigger] busy@[m] == x;
                    assert(!(day_start <= busy@[m].0 && busy@[m].1 <= day_start + DAY_SECONDS));
                }
            }
        }
        if exists|x: Interval| busy@.contains(x) && holds_at(x, reference as int) {
            let x = choose|x: Interval| busy@.contains(x) && holds_at(x, reference as int);
            let k = choose|k: int| 0 <= k < busy@.len() && #[trigger] busy@[k] == x;
            assert(holds_at(busy@[k], reference as int));
        }
        if best is None {
            assert forall|x: Interval| !(busy@.contains(x) && holds_at(x, reference as int)) by {
                if busy@.contains(x) {
                    let k = choose|k: int| 0 <= k < busy@.len() && #[trigger] busy@[k] == x;
                    assert(!holds_at(busy@[k], reference as int));
                }
            }
        }
    }
    proof {
        reveal(status_spec);
    }
    match best {
        Some(x) => {
            proof {
                assert forall|y: Interval|
                    busy@.contains(y) && holds_at(y, reference as int) implies lex_le(x, y) by {
                    let k = choose|k: int| 0 <= k < busy@.len() && #[trigger] busy@[k] == y;
                    assert(holds_at(busy@[k], reference as int));
                }
                assert(first_holding(busy@.to_set(), reference as int, x));
                let k = choose|k: int| 0 <= k < busy@.len() && #[trigger] busy@[k] == x;
                assert(in_range(busy@[k].0 as int) && in_range(busy@[k].1 as int));
            }
            (Occupancy::Available, x.1 - reference, open)
        },
        None => match next {
            Some(s) => {
                proof {
                    let k = choose|k: int| 0 <= k < busy@.len() && #[trigger] busy@[k].0 == s;
                    assert(in_range(busy@[k].0 as int));
                    assert(busy@.to_set().contains(busy@[k]));
                    assert forall|x: Interval| #[trigger] busy@.to_set().contains(x) && x.0 > reference implies s <= x.0 by {
                        let m = choose|m: int| 0 <= m < busy@.len() && #[trigger] busy@[m] == x;
                        assert(busy@[m].0 > reference);
                    }
                }
                (Occupancy::Unavailable, s - reference, open)
            },
            None => {
                proof {
                    assert forall|x: Interval| !(#[trigger] busy@.to_set().contains(x) && x.0 > reference) by {
                        if busy@.to_set().contains(x) {
                            let m = choose|m: int| 0 <= m < busy@.len() && #[trigger] busy@[m] == x;
                            assert(busy@[m].0 <= reference);
                        }
                    }
                }
                (Occupancy::Unavailable, -1, open)
            },
        },
    }
}

} // verus!
