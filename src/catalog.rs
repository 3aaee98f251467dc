use vstd::prelude::*;

use crate::filter::{pattern_compiles, pattern_matches, regex_matches};
use crate::interval::{compute_free, is_free_of, Interval};
use crate::order::{lemma_name_less_total, lemma_name_less_transitive, name_less, precedes};
use crate::room::{in_range, intervals_in_range, status_at, status_spec, Occupancy, Room};

verus! {

/// One busy interval of a named room, as a feed reports it.
pub struct BusyRecord {
    pub room: String,
    pub start: i64,
    pub end: i64,
}

/// Why the busy intervals of a resource could not be obtained.
#[derive(PartialEq, Eq, Structural, Clone, Copy, Debug)]
pub enum FeedError {
    /// The feed could not be fetched.
    Network,
    /// The document is not a calendar.
    Malformed,
    /// An event lacks a date, or a date does not parse.
    BadDate,
}

/// Why a query could not be answered.
#[derive(PartialEq, Eq, Structural, Clone, Copy, Debug)]
pub enum QueryError {
    /// The room-name pattern does not compile.
    InvalidFilter,
}

/// What a status query reports of one room.
pub struct RoomStatus {
    pub name: String,
    pub status: Occupancy,
    pub duration: i64,
    pub open: bool,
}

/// Room `n` is known, its name matches `pattern`, and it has a busy interval.
pub open spec fn lists_room(
    view: Map<Seq<char>, Set<Interval>>,
    pattern: Seq<char>,
    n: Seq<char>,
) -> bool {
    &&& view.contains_key(n)
    &&& regex_matches(pattern, n)
    &&& exists|x: Interval| #[trigger] view[n].contains(x)
}

/// Every room that `lists_room` admits has an entry in `v`.
pub open spec fn lists_every_room(
    view: Map<Seq<char>, Set<Interval>>,
    pattern: Seq<char>,
    v: Seq<(String, Vec<Interval>)>,
) -> bool {
    forall|n: Seq<char>|
        lists_room(view, pattern, n) ==> exists|k: int| 0 <= k < v.len() && #[trigger] v[k].0@ == n
}

/// The entries of `v` ascend strictly by room name.
pub open spec fn sorted_by_name(v: Seq<RoomStatus>) -> bool {
    forall|j: int, k: int| 0 <= j < k < v.len() ==> name_less(#[trigger] v[j].name@, #[trigger] v[k].name@)
}

/// `s` reports room `n` as `status_spec` describes it.
pub open spec fn reports_room(
    view: Map<Seq<char>, Set<Interval>>,
    pattern: Seq<char>,
    reference: int,
    day_start: int,
    s: RoomStatus,
) -> bool {
    &&& view.contains_key(s.name@)
    &&& regex_matches(pattern, s.name@)
    &&& status_spec(view[s.name@], reference, day_start, (s.status, s.duration, s.open))
}

/// Every known room whose name matches `pattern` has an entry in `v`.
pub open spec fn reports_every_room(
    view: Map<Seq<char>, Set<Interval>>,
    pattern: Seq<char>,
    v: Seq<RoomStatus>,
) -> bool {
    forall|n: Seq<char>|
        view.contains_key(n) && regex_matches(pattern, n) ==> exists|k: int|
            0 <= k < v.len() && #[trigger] v[k].name@ == n
}

pub open spec fn records_in_range(records: Seq<BusyRecord>) -> bool {
    forall|i: int|
        0 <= i < records.len() ==> in_range(#[trigger] records[i].start as int) && in_range(
            records[i].end as int,
        )
}

/// Some record of `records` names room `n`.
pub open spec fn names_in(records: Seq<BusyRecord>, n: Seq<char>) -> bool {
    exists|i: int| 0 <= i < records.len() && #[trigger] records[i].room@ == n
}

/// The intervals that `records` gives room `n`.
pub open spec fn intervals_for(records: Seq<BusyRecord>, n: Seq<char>) -> Set<Interval> {
    Set::new(
        |x: Interval|
            exists|i: int|
                0 <= i < records.len() && #[trigger] records[i].room@ == n && (
                records[i].start,
                records[i].end,
            ) == x,
    )
}

/// The busy sets that one feed gives: one for each room it names.
pub open spec fn feed_map(records: Seq<BusyRecord>) -> Map<Seq<char>, Set<Interval>> {
    Map::new(|n: Seq<char>| names_in(records, n), |n: Seq<char>| intervals_for(records, n))
}

/// What a catalog holds: the busy set of each room, and the resource identifier
/// whose feed last named the room. Both maps have the same keys.
pub type CatalogState = (Map<Seq<char>, Set<Interval>>, Map<Seq<char>, i32>);

/// The busy sets with the rooms tied to `id` that `records` no longer names emptied.
pub open spec fn cleared(
    busy: Map<Seq<char>, Set<Interval>>,
    sources: Map<Seq<char>, i32>,
    id: i32,
    records: Seq<BusyRecord>,
) -> Map<Seq<char>, Set<Interval>> {
    Map::new(
        |n: Seq<char>| busy.contains_key(n),
        |n: Seq<char>|
            if sources[n] == id && !names_in(records, n) {
                Set::<Interval>::empty()
            } else {
                busy[n]
            },
    )
}

/// The state after the feed of resource `id` succeeds with `records`: each room the
/// feed names gets exactly what the feed gives it and is tied to `id`; each other
/// room tied to `id` is left with no busy interval, since its events are gone; every
/// other room keeps its set.
pub open spec fn after_feed(before: CatalogState, id: i32, records: Seq<BusyRecord>) -> CatalogState {
    (
        cleared(before.0, before.1, id, records).union_prefer_right(feed_map(records)),
        before.1.union_prefer_right(Map::new(|n: Seq<char>| names_in(records, n), |n: Seq<char>| id)),
    )
}

/// The state after one feed outcome of resource `id`: a failed feed changes nothing.
pub open spec fn after_outcome(
    before: CatalogState,
    id: i32,
    outcome: Result<Vec<BusyRecord>, FeedError>,
) -> CatalogState {
    match outcome {
        Ok(records) => after_feed(before, id, records@),
        Err(_) => before,
    }
}

/// The state after a refresh pass that meets the feed outcomes, each with its
/// resource identifier, in order.
pub open spec fn after_pass(
    before: CatalogState,
    outcomes: Seq<(i32, Result<Vec<BusyRecord>, FeedError>)>,
) -> CatalogState
    decreases outcomes.len(),
{
    if outcomes.len() == 0 {
        before
    } else {
        let last = outcomes.last();
        after_outcome(after_pass(before, outcomes.drop_last()), last.0, last.1)
    }
}

pub open spec fn outcome_in_range(outcome: Result<Vec<BusyRecord>, FeedError>) -> bool {
    outcome matches Ok(records) ==> records_in_range(records@)
}

pub open spec fn has_room(rooms: Seq<Room>, n: Seq<char>) -> bool {
    exists|i: int| 0 <= i < rooms.len() && #[trigger] rooms[i].name@ == n
}

pub open spec fn room_index(rooms: Seq<Room>, n: Seq<char>) -> int {
    choose|i: int| 0 <= i < rooms.len() && #[trigger] rooms[i].name@ == n
}

/// The rooms known so far and their busy intervals.
pub struct Catalog {
    rooms: Vec<Room>,
    sources: Vec<i32>,
}

impl View for Catalog {
    type V = Map<Seq<char>, Set<Interval>>;

    closed spec fn view(&self) -> Map<Seq<char>, Set<Interval>> {
        Map::new(
            |n: Seq<char>| has_room(self.rooms@, n),
            |n: Seq<char>| self.rooms@[room_index(self.rooms@, n)].slots@.to_set(),
        )
    }
}

impl Catalog {
    /// The resource identifier whose feed last named each room.
    pub closed spec fn sources(&self) -> Map<Seq<char>, i32> {
        Map::new(
            |n: Seq<char>| has_room(self.rooms@, n),
            |n: Seq<char>| self.sources@[room_index(self.rooms@, n)],
        )
    }

    /// The busy sets and the identifiers together.
    pub open spec fn state(&self) -> CatalogState {
        (self@, self.sources())
    }

    /// Room names are unique and every timestamp is in range.
    pub closed spec fn wf(&self) -> bool {
        &&& self.sources@.len() == self.rooms@.len()
        &&& forall|i: int, j: int|
            0 <= i < j < self.rooms@.len() ==> #[trigger] self.rooms@[i].name@
                != #[trigger] self.rooms@[j].name@
        &&& forall|i: int| 0 <= i < self.rooms@.len() ==> intervals_in_range(#[trigger] self.rooms@[i].slots@)
    }

    proof fn lemma_index(&self, i: int)
        requires
            self.wf(),
            0 <= i < self.rooms@.len(),
        ensures
            has_room(self.rooms@, self.rooms@[i].name@),
            room_index(self.rooms@, self.rooms@[i].name@) == i,
    {
        let n = self.rooms@[i].name@;
        assert(self.rooms@[i].name@ == n);
        let j = room_index(self.rooms@, n);
        if j < i {
            assert(self.rooms@[j].name@ != self.rooms@[i].name@);
        } else if j > i {
            assert(self.rooms@[i].name@ != self.rooms@[j].name@);
        }
    }

    proof fn lemma_view(&self, i: int)
        requires
            self.wf(),
            0 <= i < self.rooms@.len(),
        ensures
            self@.contains_key(self.rooms@[i].name@),
            self@[self.rooms@[i].name@] == self.rooms@[i].slots@.to_set(),
            self.sources().contains_key(self.rooms@[i].name@),
            self.sources()[self.rooms@[i].name@] == self.sources@[i],
    {
        self.lemma_index(i);
    }

    /// An empty catalog.
    pub fn new() -> (r: Catalog)
        ensures
            r.wf(),
            r@ == Map::<Seq<char>, Set<Interval>>::empty(),
            r.sources() == Map::<Seq<char>, i32>::empty(),
    {
        let r = Catalog { rooms: Vec::new(), sources: Vec::new() };
        assert(r@ =~= Map::<Seq<char>, Set<Interval>>::empty());
        assert(r.sources() =~= Map::<Seq<char>, i32>::empty());
        r
    }

    /// The busy intervals of room `name`, if the room is known.
    pub fn busy_of(&self, name: &String) -> (r: Option<Vec<Interval>>)
        requires
            self.wf(),
        ensures
            r is Some <==> self@.contains_key(name@),
            r matches Some(v) ==> v@.to_set() == self@[name@],
    {
        let mut i: usize = 0;
        while i < self.rooms.len()
            invariant
                i <= self.rooms@.len(),
                self.wf(),
                forall|k: int| 0 <= k < i ==> #[trigger] self.rooms@[k].name@ != name@,
            decreases self.rooms.len() - i,
        {
            if self.rooms[i].name == *name {
                proof {
                    self.lemma_view(i as int);
                }
                return Some(copy_intervals(&self.rooms[i].slots));
            }
            i = i + 1;
        }
        None
    }

    /// Sets the busy intervals of room `name` to `slots` and ties the room to resource
    /// `source`, adding the room if it is new.
    pub fn replace_busy(&mut self, name: String, source: i32, slots: Vec<Interval>)
        requires
            old(self).wf(),
            intervals_in_range(slots@),
        ensures
            final(self).wf(),
            final(self)@ == old(self)@.insert(name@, slots@.to_set()),
            final(self).sources() == old(self).sources().insert(name@, source),
    {
        let ghost before = *self;
        let ghost name_view = name@;
        let ghost slots_set = slots@.to_set();
        let mut i: usize = 0;
        while i < self.rooms.len()
            invariant
                i <= self.rooms@.len(),
                *self == before,
                before.wf(),
                before@ == old(self)@,
                before.sources() == old(self).sources(),
                intervals_in_range(slots@),
                name@ == name_view,
                slots@.to_set() == slots_set,
                forall|k: int| 0 <= k < i ==> #[trigger] self.rooms@[k].name@ != name@,
            decreases self.rooms.len() - i,
        {
            if self.rooms[i].name == name {
                assert(before.rooms@[i as int].name@ == name_view);
                let room = Room { name, slots, availability: Vec::new() };
                self.rooms.set(i, room);
                self.sources.set(i, source);
                proof {
                    assert forall|a: int, b: int|
                        0 <= a < b < self.rooms@.len() implies #[trigger] self.rooms@[a].name@
                        != #[trigger] self.rooms@[b].name@ by {
                        assert(before.rooms@[a].name@ != before.rooms@[b].name@);
                    }
                    assert forall|k: int| 0 <= k < self.rooms@.len() implies intervals_in_range(
                        #[trigger] self.rooms@[k].slots@,
                    ) by {
                        if k != i {
                            assert(before.rooms@[k] == self.rooms@[k]);
                        }
                    }
                    assert forall|n: Seq<char>|
                        has_room(self.rooms@, n) == has_room(before.rooms@, n) by {
                        if has_room(before.rooms@, n) {
                            let k = choose|k: int| 0 <= k < before.rooms@.len() && #[trigger] before.rooms@[k].name@ == n;
                            assert(self.rooms@[k].name@ == n);
                        }
                        if has_room(self.rooms@, n) {
                            let k = choose|k: int| 0 <= k < self.rooms@.len() && #[trigger] self.rooms@[k].name@ == n;
                            assert(before.rooms@[k].name@ == n);
                        }
                    }
                    assert(self.wf());
                    assert(has_room(before.rooms@, before.rooms@[i as int].name@));
                    assert(before@.contains_key(name_view));
                    assert forall|n: Seq<char>| #[trigger] has_room(self.rooms@, n) implies self@[n]
                        == before@.insert(name_view, slots_set)[n] by {
                        let k = choose|k: int| 0 <= k < self.rooms@.len() && #[trigger] self.rooms@[k].name@ == n;
                        self.lemma_index(k);
                        before.lemma_index(k);
                    }
                    assert(self@ =~= before@.insert(name_view, slots_set));
                    assert forall|n: Seq<char>| #[trigger] has_room(self.rooms@, n) implies self.sources()[n]
                        == before.sources().insert(name_view, source)[n] by {
                        let k = choose|k: int| 0 <= k < self.rooms@.len() && #[trigger] self.rooms@[k].name@ == n;
                        self.lemma_index(k);
                        before.lemma_index(k);
                        if k != i {
                            assert(self.sources@[k] == before.sources@[k]);
                        }
                    }
                    assert(has_room(self.rooms@, name_view));
                    assert(self.sources() =~= before.sources().insert(name_view, source));
                }
                return;
            }
            i = i + 1;
        }
        let room = Room { name, slots, availability: Vec::new() };
        self.rooms.push(room);
        self.sources.push(source);
        proof {
            let last = self.rooms@.len() - 1;
            assert(self.rooms@[last].name@ == name_view);
            assert forall|a: int, b: int|
                0 <= a < b < self.rooms@.len() implies #[trigger] self.rooms@[a].name@
                != #[trigger] self.rooms@[b].name@ by {
                if b < last {
                    assert(before.rooms@[a].name@ != before.rooms@[b].name@);
                } else {
                    assert(self.rooms@[a] == before.rooms@[a]);
                }
            }
            assert forall|k: int| 0 <= k < self.rooms@.len() implies intervals_in_range(
                #[trigger] self.rooms@[k].slots@,
            ) by {
                if k < last {
                    assert(before.rooms@[k] == self.rooms@[k]);
                }
            }
            assert forall|n: Seq<char>|
                has_room(self.rooms@, n) == (has_room(before.rooms@, n) || n == name_view) by {
                if has_room(before.rooms@, n) {
                    let k = choose|k: int| 0 <= k < before.rooms@.len() && #[trigger] before.rooms@[k].name@ == n;
                    assert(self.rooms@[k].name@ == n);
                }
                if has_room(self.rooms@, n) {
                    let k = choose|k: int| 0 <= k < self.rooms@.len() && #[trigger] self.rooms@[k].name@ == n;
                    if k < last {
                        assert(before.rooms@[k].name@ == n);
                    }
                }
            }
            assert(self.wf());
            assert forall|n: Seq<char>| #[trigger] has_room(self.rooms@, n) implies self@[n]
                == before@.insert(name_view, slots_set)[n] by {
                let k = choose|k: int| 0 <= k < self.rooms@.len() && #[trigger] self.rooms@[k].name@ == n;
                self.lemma_index(k);
                if k < last {
                    before.lemma_index(k);
                }
            }
            assert(self@ =~= before@.insert(name_view, slots_set));
            assert forall|n: Seq<char>| #[trigger] has_room(self.rooms@, n) implies self.sources()[n]
                == before.sources().insert(name_view, source)[n] by {
                let k = choose|k: int| 0 <= k < self.rooms@.len() && #[trigger] self.rooms@[k].name@ == n;
                self.lemma_index(k);
                if k < last {
                    before.lemma_index(k);
                }
            }
            assert(self.sources() =~= before.sources().insert(name_view, source));
        }
    }

    /// The free intervals, from `reference` up to `horizon`, of each room whose name
    /// matches `pattern` and that has a busy interval, one entry per room.
    pub fn list_all_free(&self, pattern: &str, reference: i64, horizon: i64) -> (r: Result<
        Vec<(String, Vec<Interval>)>,
        QueryError,
    >)
        requires
            self.wf(),
        ensures
            pattern_compiles(pattern@) ==> r is Ok,
            r is Err ==> !pattern_compiles(pattern@),
            r matches Ok(v) ==> forall|k: int|
                0 <= k < v@.len() ==> lists_room(self@, pattern@, #[trigger] v@[k].0@) && is_free_of(
                    v@[k].1@,
                    self@[v@[k].0@],
                    reference as int,
                    horizon as int,
                ),
            r matches Ok(v) ==> lists_every_room(self@, pattern@, v@),
            r matches Ok(v) ==> forall|j: int, k: int|
                0 <= j < k < v@.len() ==> #[trigger] v@[j].0@ != #[trigger] v@[k].0@,
    {
        let mut v: Vec<(String, Vec<Interval>)> = Vec::new();
        let ghost mut idx: Seq<int> = Seq::empty();
        let mut i: usize = 0;
        while i < self.rooms.len()
            invariant
                i <= self.rooms@.len(),
                self.wf(),
                idx.len() == v@.len(),
                forall|k: int|
                    0 <= k < v@.len() ==> 0 <= #[trigger] idx[k] < i && v@[k].0@
                        == self.rooms@[idx[k]].name@ && regex_matches(pattern@, v@[k].0@)
                        && self.rooms@[idx[k]].slots@.len() > 0 && is_free_of(
                        v@[k].1@,
                        self.rooms@[idx[k]].slots@.to_set(),
                        reference as int,
                        horizon as int,
                    ),
                forall|j: int, k: int| 0 <= j < k < v@.len() ==> #[trigger] idx[j] < #[trigger] idx[k],
                forall|m: int|
                    0 <= m < i && regex_matches(pattern@, self.rooms@[m].name@)
                        && #[trigger] self.rooms@[m].slots@.len() > 0 ==> exists|k: int|
                        0 <= k < v@.len() && #[trigger] idx[k] == m,
            decreases self.rooms.len() - i,
        {
            let room = &self.rooms[i];
            let matched = match pattern_matches(pattern, room.name.as_str()) {
                Ok(b) => b,
                Err(_) => {
                    return Err(QueryError::InvalidFilter);
                },
            };
            let ghost old_idx = idx;
            let ghost old_len = v@.len();
            if matched && room.slots.len() > 0 {
                let free = compute_free(&room.slots, reference, horizon);
                v.push((room.name.clone(), free));
                proof {
                    idx = idx.push(i as int);
                }
            }
            proof {
                assert forall|m: int|
                    0 <= m < i + 1 && regex_matches(pattern@, self.rooms@[m].name@)
                        && #[trigger] self.rooms@[m].slots@.len() > 0 implies exists|k: int|
                    0 <= k < v@.len() && #[trigger] idx[k] == m by {
                    if m < i {
                        let k = choose|k: int| 0 <= k < old_len && #[trigger] old_idx[k] == m;
                        assert(idx[k] == m);
                    } else {
                        assert(idx[idx.len() - 1] == m);
                    }
                }
            }
            i = i + 1;
        }
        proof {
            assert forall|k: int| 0 <= k < v@.len() implies lists_room(self@, pattern@, #[trigger] v@[k].0@)
                && is_free_of(v@[k].1@, self@[v@[k].0@], reference as int, horizon as int) by {
                self.lemma_view(idx[k]);
                let room = self.rooms@[idx[k]];
                assert(room.slots@.to_set().contains(room.slots@[0]));
            }
            assert forall|n: Seq<char>| lists_room(self@, pattern@, n) implies exists|k: int|
                0 <= k < v@.len() && #[trigger] v@[k].0@ == n by {
                let m = choose|m: int| 0 <= m < self.rooms@.len() && #[trigger] self.rooms@[m].name@ == n;
                self.lemma_view(m);
                let x = choose|x: Interval| #[trigger] self@[n].contains(x);
                assert(self.rooms@[m].slots@.len() > 0);
                let k = choose|k: int| 0 <= k < v@.len() && #[trigger] idx[k] == m;
                assert(v@[k].0@ == n);
            }
            assert(lists_every_room(self@, pattern@, v@));
            assert forall|j: int, k: int| 0 <= j < k < v@.len() implies #[trigger] v@[j].0@
                != #[trigger] v@[k].0@ by {
                assert(idx[j] < idx[k]);
            }
        }
        Ok(v)
    }

    /// The status at `reference` of each room whose name matches `pattern`, one entry
    /// per room, in ascending order of name. `day_start` starts the service day that
    /// `open` looks at.
    pub fn statuses_at(&self, pattern: &str, reference: i64, day_start: i64) -> (r: Result<
        Vec<RoomStatus>,
        QueryError,
    >)
        requires
            self.wf(),
            in_range(reference as int),
            in_range(day_start as int),
        ensures
            pattern_compiles(pattern@) ==> r is Ok,
            r is Err ==> !pattern_compiles(pattern@),
            r matches Ok(v) ==> forall|k: int|
                0 <= k < v@.len() ==> reports_room(
                    self@,
                    pattern@,
                    reference as int,
                    day_start as int,
                    #[trigger] v@[k],
                ),
            r matches Ok(v) ==> reports_every_room(self@, pattern@, v@),
            r matches Ok(v) ==> sorted_by_name(v@),
    {
        let mut v: Vec<RoomStatus> = Vec::new();
        let mut i: usize = 0;
        while i < self.rooms.len()
            invariant
                i <= self.rooms@.len(),
                self.wf(),
                in_range(reference as int),
                in_range(day_start as int),
                sorted_by_name(v@),
                forall|s: RoomStatus|
                    #[trigger] v@.contains(s) ==> exists|m: int|
                        0 <= m < i && #[trigger] self.rooms@[m].name@ == s.name@ && regex_matches(
                            pattern@,
                            s.name@,
                        ) && status_spec(
                            self.rooms@[m].slots@.to_set(),
                            reference as int,
                            day_start as int,
                            (s.status, s.duration, s.open),
                        ),
                forall|m: int|
                    0 <= m < i && regex_matches(pattern@, #[trigger] self.rooms@[m].name@)
                        ==> exists|s: RoomStatus| #[trigger] v@.contains(s) && s.name@ == self.rooms@[m].name@,
            decreases self.rooms.len() - i,
        {
            let room = &self.rooms[i];
            let matched = match pattern_matches(pattern, room.name.as_str()) {
                Ok(b) => b,
                Err(_) => {
                    return Err(QueryError::InvalidFilter);
                },
            };
            let ghost before = v@;
            if matched {
                proof {
                    assert(intervals_in_range(self.rooms@[i as int].slots@));
                }
                let (status, duration, open) = status_at(&room.slots, reference, day_start);
                let entry = RoomStatus { name: room.name.clone(), status, duration, open };
                proof {
                    assert forall|k: int| 0 <= k < v@.len() implies #[trigger] v@[k].name@ != entry.name@ by {
                        assert(v@.contains(v@[k]));
                        let m = choose|m: int|
                            0 <= m < i && #[trigger] self.rooms@[m].name@ == v@[k].name@ && regex_matches(
                                pattern@,
                                v@[k].name@,
                            ) && status_spec(
                                self.rooms@[m].slots@.to_set(),
                                reference as int,
                                day_start as int,
                                (v@[k].status, v@[k].duration, v@[k].open),
                            );
                        assert(self.rooms@[m].name@ != self.rooms@[i as int].name@);
                    }
                }
                let ghost e = entry;
                insert_by_name(&mut v, entry);
                proof {
                    assert(v@.contains(e));
                }
            }
            proof {
                assert forall|s: RoomStatus|
                    #[trigger] v@.contains(s) implies exists|m: int|
                        0 <= m < i + 1 && #[trigger] self.rooms@[m].name@ == s.name@ && regex_matches(
                            pattern@,
                            s.name@,
                        ) && status_spec(
                            self.rooms@[m].slots@.to_set(),
                            reference as int,
                            day_start as int,
                            (s.status, s.duration, s.open),
                        ) by {
                    if before.contains(s) {
                    } else {
                        assert(self.rooms@[i as int].name@ == s.name@);
                    }
                }
                assert forall|m: int|
                    0 <= m < i + 1 && regex_matches(pattern@, #[trigger] self.rooms@[m].name@)
                        implies exists|s: RoomStatus| #[trigger] v@.contains(s) && s.name@ == self.rooms@[m].name@ by {
                    if m < i {
                        let s = choose|s: RoomStatus| #[trigger] before.contains(s) && s.name@ == self.rooms@[m].name@;
                        assert(v@.contains(s));
                    } else {
                        assert(matched);
                    }
                }
            }
            i = i + 1;
        }
        proof {
            assert forall|k: int| 0 <= k < v@.len() implies reports_room(
                self@,
                pattern@,
                reference as int,
                day_start as int,
                #[trigger] v@[k],
            ) by {
                assert(v@.contains(v@[k]));
                let m = choose|m: int|
                    0 <= m < i && #[trigger] self.rooms@[m].name@ == v@[k].name@ && regex_matches(
                        pattern@,
                        v@[k].name@,
                    ) && status_spec(
                        self.rooms@[m].slots@.to_set(),
                        reference as int,
                        day_start as int,
                        (v@[k].status, v@[k].duration, v@[k].open),
                    );
                self.lemma_view(m);
            }
            assert forall|n: Seq<char>| self@.contains_key(n) && regex_matches(pattern@, n) implies exists|k: int|
                0 <= k < v@.len() && #[trigger] v@[k].name@ == n by {
                let m = choose|m: int| 0 <= m < self.rooms@.len() && #[trigger] self.rooms@[m].name@ == n;
                let s = choose|s: RoomStatus| #[trigger] v@.contains(s) && s.name@ == self.rooms@[m].name@;
                let k = choose|k: int| 0 <= k < v@.len() && v@[k] == s;
                assert(v@[k].name@ == n);
            }
            assert(reports_every_room(self@, pattern@, v@));
        }
        Ok(v)
    }

    /// The names of the rooms tied to resource `id` that `records` does not name.
    fn tied_unnamed(&self, id: i32, records: &Vec<BusyRecord>) -> (r: Vec<String>)
        requires
            self.wf(),
        ensures
            forall|n: Seq<char>|
                #[trigger] holds_name(r@, n) <==> (self@.contains_key(n)
                    && self.sources()[n] == id && !names_in(records@, n)),
    {
        let mut r: Vec<String> = Vec::new();
        let mut i: usize = 0;
        while i < self.rooms.len()
            invariant
                i <= self.rooms@.len(),
                self.wf(),
                forall|n: Seq<char>|
                    #[trigger] holds_name(r@, n) <==> (exists|k: int|
                        0 <= k < i && #[trigger] self.rooms@[k].name@ == n && self.sources@[k] == id
                            && !names_in(records@, n)),
            decreases self.rooms.len() - i,
        {
            if self.sources[i] == id && !named_in(records, &self.rooms[i].name) {
                let ghost before = r@;
                r.push(self.rooms[i].name.clone());
                proof {
                    assert forall|n: Seq<char>|
                        #[trigger] holds_name(r@, n) <==> (exists|k: int|
                            0 <= k < i + 1 && #[trigger] self.rooms@[k].name@ == n && self.sources@[k] == id
                                && !names_in(records@, n)) by {
                        if holds_name(r@, n) {
                            let m = choose|m: int| 0 <= m < r@.len() && #[trigger] r@[m]@ == n;
                            if m < before.len() {
                                assert(before[m]@ == n);
                                assert(holds_name(before, n));
                            } else {
                                assert(self.rooms@[i as int].name@ == n);
                            }
                        }
                        if exists|k: int|
                            0 <= k < i + 1 && #[trigger] self.rooms@[k].name@ == n && self.sources@[k] == id
                                && !names_in(records@, n) {
                            let k = choose|k: int|
                                0 <= k < i + 1 && #[trigger] self.rooms@[k].name@ == n && self.sources@[k]
                                    == id && !names_in(records@, n);
                            if k < i {
                                assert(self.rooms@[k].name@ == n);
                                assert(holds_name(before, n));
                                let m = choose|m: int| 0 <= m < before.len() && #[trigger] before[m]@ == n;
                                assert(r@[m]@ == n);
                            } else {
                                assert(r@[before.len() as int]@ == n);
                            }
                        }
                    }
                }
            }
            i = i + 1;
        }
        proof {
            assert forall|n: Seq<char>|
                #[trigger] holds_name(r@, n) <==> (self@.contains_key(n)
                    && self.sources()[n] == id && !names_in(records@, n)) by {
                if self@.contains_key(n) {
                    let k = choose|k: int| 0 <= k < self.rooms@.len() && #[trigger] self.rooms@[k].name@ == n;
                    self.lemma_view(k);
                }
                if exists|k: int|
                    0 <= k < self.rooms@.len() && #[trigger] self.rooms@[k].name@ == n && self.sources@[k] == id
                        && !names_in(records@, n) {
                    let k = choose|k: int|
                        0 <= k < self.rooms@.len() && #[trigger] self.rooms@[k].name@ == n && self.sources@[k]
                            == id && !names_in(records@, n);
                    self.lemma_view(k);
                }
            }
        }
        r
    }

    /// Applies the records of a successful feed of resource `id`: each room they name
    /// gets exactly the intervals they give it and is tied to `id`; each other room
    /// tied to `id` loses its intervals; the remaining rooms keep theirs.
    pub fn apply_feed(&mut self, id: i32, records: &Vec<BusyRecord>)
        requires
            old(self).wf(),
            records_in_range(records@),
        ensures
            final(self).wf(),
            final(self).state() == after_feed(old(self).state(), id, records@),
    {
        let ghost b0 = self@;
        let ghost s0 = self.sources();
        let stale = self.tied_unnamed(id, records);
        let mut j: usize = 0;
        while j < stale.len()
            invariant
                j <= stale@.len(),
                self.wf(),
                records_in_range(records@),
                forall|n: Seq<char>|
                    #[trigger] holds_name(stale@, n) <==> (b0.contains_key(n)
                        && s0[n] == id && !names_in(records@, n)),
                self@ == b0.union_prefer_right(
                    Map::new(
                        |n: Seq<char>| exists|m: int| 0 <= m < j && #[trigger] stale@[m]@ == n,
                        |n: Seq<char>| Set::<Interval>::empty(),
                    ),
                ),
                self.sources() == s0,
            decreases stale.len() - j,
        {
            let ghost n = stale@[j as int]@;
            let empty: Vec<Interval> = Vec::new();
            proof {
                assert(empty@.to_set() =~= Set::<Interval>::empty());
                assert(stale@[j as int]@ == n);
                assert(holds_name(stale@, n));
                assert(b0.contains_key(n) && s0[n] == id);
            }
            self.replace_busy(stale[j].clone(), id, empty);
            proof {
                assert(self.sources() =~= s0);
                assert(self@ =~= b0.union_prefer_right(
                    Map::new(
                        |k: Seq<char>| exists|m: int| 0 <= m < j + 1 && #[trigger] stale@[m]@ == k,
                        |k: Seq<char>| Set::<Interval>::empty(),
                    ),
                ));
            }
            j = j + 1;
        }
        let ghost b1 = cleared(b0, s0, id, records@);
        proof {
            assert forall|n: Seq<char>| #[trigger] self@.contains_key(n) implies b1.contains_key(n) by {
                if exists|m: int| 0 <= m < j && #[trigger] stale@[m]@ == n {
                    let m = choose|m: int| 0 <= m < j && #[trigger] stale@[m]@ == n;
                    assert(holds_name(stale@, n));
                }
            }
            assert forall|n: Seq<char>| #[trigger] b1.contains_key(n) implies self@.contains_key(n)
                && self@[n] == b1[n] by {
                if holds_name(stale@, n) {
                    let m = choose|m: int| 0 <= m < stale@.len() && #[trigger] stale@[m]@ == n;
                    assert(stale@[m]@ == n);
                } else if exists|m: int| 0 <= m < j && #[trigger] stale@[m]@ == n {
                    let m = choose|m: int| 0 <= m < j && #[trigger] stale@[m]@ == n;
                    assert(holds_name(stale@, n));
                }
            }
            assert(self@ =~= b1);
        }
        let mut i: usize = 0;
        while i < records.len()
            invariant
                i <= records@.len(),
                self.wf(),
                records_in_range(records@),
                self@ == b1.union_prefer_right(
                    Map::new(
                        |n: Seq<char>| exists|j: int| 0 <= j < i && #[trigger] records@[j].room@ == n,
                        |n: Seq<char>| intervals_for(records@, n),
                    ),
                ),
                self.sources() == s0.union_prefer_right(
                    Map::new(
                        |n: Seq<char>| exists|j: int| 0 <= j < i && #[trigger] records@[j].room@ == n,
                        |n: Seq<char>| id,
                    ),
                ),
            decreases records.len() - i,
        {
            let ghost n = records@[i as int].room@;
            if !named_before(records, i) {
                let slots = intervals_of(records, &records[i].room);
                self.replace_busy(records[i].room.clone(), id, slots);
            }
            proof {
                let m_old = Map::new(
                    |k: Seq<char>| exists|j: int| 0 <= j < i && #[trigger] records@[j].room@ == k,
                    |k: Seq<char>| intervals_for(records@, k),
                );
                let m_new = Map::new(
                    |k: Seq<char>| exists|j: int| 0 <= j < i + 1 && #[trigger] records@[j].room@ == k,
                    |k: Seq<char>| intervals_for(records@, k),
                );
                let t_old = Map::new(
                    |k: Seq<char>| exists|j: int| 0 <= j < i && #[trigger] records@[j].room@ == k,
                    |k: Seq<char>| id,
                );
                let t_new = Map::new(
                    |k: Seq<char>| exists|j: int| 0 <= j < i + 1 && #[trigger] records@[j].room@ == k,
                    |k: Seq<char>| id,
                );
                assert(m_new.contains_key(n));
                assert(t_new.contains_key(n));
                if exists|j: int| 0 <= j < i && #[trigger] records@[j].room@ == n {
                    assert(m_new =~= m_old);
                    assert(t_new =~= t_old);
                } else {
                    assert(m_new =~= m_old.insert(n, intervals_for(records@, n)));
                    assert(t_new =~= t_old.insert(n, id));
                }
                assert(self@ =~= b1.union_prefer_right(m_new));
                assert(self.sources() =~= s0.union_prefer_right(t_new));
            }
            i = i + 1;
        }
        assert(self@ =~= after_feed((b0, s0), id, records@).0);
        assert(self.sources() =~= after_feed((b0, s0), id, records@).1);
    }

    /// Applies the outcome of the feed of resource `id`; a failed feed leaves every
    /// room as it was.
    pub fn apply_outcome(&mut self, id: i32, outcome: &Result<Vec<BusyRecord>, FeedError>)
        requires
            old(self).wf(),
            outcome_in_range(*outcome),
        ensures
            final(self).wf(),
            final(self).state() == after_outcome(old(self).state(), id, *outcome),
    {
        match outcome {
            Ok(records) => self.apply_feed(id, records),
            Err(_) => {},
        }
    }

    /// Applies the outcomes of a refresh pass, one resource after another. A failed
    /// feed does not stop the pass.
    pub fn apply_pass(&mut self, outcomes: &Vec<(i32, Result<Vec<BusyRecord>, FeedError>)>)
        requires
            old(self).wf(),
            forall|i: int| 0 <= i < outcomes@.len() ==> outcome_in_range(#[trigger] outcomes@[i].1),
        ensures
            final(self).wf(),
            final(self).state() == after_pass(old(self).state(), outcomes@),
    {
        let mut i: usize = 0;
        while i < outcomes.len()
            invariant
                i <= outcomes@.len(),
                self.wf(),
                forall|k: int| 0 <= k < outcomes@.len() ==> outcome_in_range(#[trigger] outcomes@[k].1),
                self.state() == after_pass(old(self).state(), outcomes@.subrange(0, i as int)),
            decreases outcomes.len() - i,
        {
            let (id, outcome) = &outcomes[i];
            self.apply_outcome(*id, outcome);
            assert(outcomes@.subrange(0, i + 1).drop_last() =~= outcomes@.subrange(0, i as int));
            i = i + 1;
        }
        assert(outcomes@.subrange(0, outcomes@.len() as int) =~= outcomes@);
    }
}

/// Some string of `r` is `n`.
pub open spec fn holds_name(r: Seq<String>, n: Seq<char>) -> bool {
    exists|m: int| 0 <= m < r.len() && #[trigger] r[m]@ == n
}

/// Whether some record names room `name`.
fn named_in(records: &Vec<BusyRecord>, name: &String) -> (r: bool)
    ensures
        r == names_in(records@, name@),
{
    let mut j: usize = 0;
    while j < records.len()
        invariant
            j <= records@.len(),
            forall|k: int| 0 <= k < j ==> #[trigger] records@[k].room@ != name@,
        decreases records.len() - j,
    {
        if records[j].room == *name {
            return true;
        }
        j = j + 1;
    }
    false
}

/// Whether a record before index `i` names the same room as record `i`.
fn named_before(records: &Vec<BusyRecord>, i: usize) -> (r: bool)
    requires
        i < records@.len(),
    ensures
        r == exists|j: int| 0 <= j < i && #[trigger] records@[j].room@ == records@[i as int].room@,
{
    let mut j: usize = 0;
    while j < i
        invariant
            j <= i < records@.len(),
            forall|k: int| 0 <= k < j ==> #[trigger] records@[k].room@ != records@[i as int].room@,
        decreases i - j,
    {
        if records[j].room == records[i].room {
            return true;
        }
        j = j + 1;
    }
    false
}

/// The intervals that `records` gives room `name`.
fn intervals_of(records: &Vec<BusyRecord>, name: &String) -> (r: Vec<Interval>)
    requires
        records_in_range(records@),
    ensures
        r@.to_set() == intervals_for(records@, name@),
        intervals_in_range(r@),
{
    let mut r: Vec<Interval> = Vec::new();
    let mut j: usize = 0;
    while j < records.len()
        invariant
            j <= records@.len(),
            records_in_range(records@),
            intervals_in_range(r@),
            forall|x: Interval|
                r@.contains(x) <==> exists|k: int|
                    0 <= k < j && #[trigger] records@[k].room@ == name@ && (
                    records@[k].start,
                    records@[k].end,
                ) == x,
        decreases records.len() - j,
    {
        if records[j].room == *name {
            let ghost before = r@;
            r.push((records[j].start, records[j].end));
            proof {
                assert forall|x: Interval|
                    r@.contains(x) <==> exists|k: int|
                        0 <= k < j + 1 && #[trigger] records@[k].room@ == name@ && (
                        records@[k].start,
                        records@[k].end,
                    ) == x by {
                    if r@.contains(x) && x != r@.last() {
                        let m = choose|m: int| 0 <= m < r@.len() && r@[m] == x;
                        assert(before[m] == x);
                        assert(before.contains(x));
                    }
                    if r@.contains(x) && x == r@.last() {
                        assert(records@[j as int].room@ == name@);
                    }
                    if exists|k: int|
                        0 <= k < j + 1 && #[trigger] records@[k].room@ == name@ && (
                        records@[k].start,
                        records@[k].end,
                    ) == x {
                        let k = choose|k: int|
                            0 <= k < j + 1 && #[trigger] records@[k].room@ == name@ && (
                            records@[k].start,
                            records@[k].end,
                        ) == x;
                        if k < j {
                            assert(before.contains(x));
                            let m = choose|m: int| 0 <= m < before.len() && before[m] == x;
                            assert(r@[m] == x);
                        } else {
                            assert(r@[r@.len() - 1] == x);
                        }
                    }
                }
                assert forall|m: int| 0 <= m < r@.len() implies in_range(#[trigger] r@[m].0 as int)
                    && in_range(r@[m].1 as int) by {
                    if m < before.len() {
                        assert(before[m] == r@[m]);
                        assert(in_range(before[m].0 as int));
                    }
                }
            }
        }
        j = j + 1;
    }
    assert(r@.to_set() =~= intervals_for(records@, name@));
    r
}

/// The two maps of a state have the same keys.
pub open spec fn state_wf(state: CatalogState) -> bool {
    state.0.dom() == state.1.dom()
}

/// A room that no successful feed of a pass names, and that is not tied to a
/// resource whose feed succeeds in the pass, leaves the pass as it was, whichever
/// feeds failed: a failed resource neither aborts the pass nor disturbs, nor is
/// disturbed by, the rooms of another.
pub proof fn lemma_pass_keeps_untouched(
    before: CatalogState,
    outcomes: Seq<(i32, Result<Vec<BusyRecord>, FeedError>)>,
    n: Seq<char>,
)
    requires
        state_wf(before),
        forall|i: int|
            0 <= i < outcomes.len() ==> (#[trigger] outcomes[i].1 matches Ok(records) ==> !names_in(
                records@,
                n,
            ) && (before.0.contains_key(n) ==> outcomes[i].0 != before.1[n])),
    ensures
        after_pass(before, outcomes).0.contains_key(n) == before.0.contains_key(n),
        after_pass(before, outcomes).1.contains_key(n) == before.0.contains_key(n),
        before.0.contains_key(n) ==> after_pass(before, outcomes).0[n] == before.0[n]
            && after_pass(before, outcomes).1[n] == before.1[n],
    decreases outcomes.len(),
{
    if outcomes.len() > 0 {
        let rest = outcomes.drop_last();
        assert forall|i: int|
            0 <= i < rest.len() implies (#[trigger] rest[i].1 matches Ok(records) ==> !names_in(
            records@,
            n,
        ) && (before.0.contains_key(n) ==> rest[i].0 != before.1[n])) by {
            assert(rest[i] == outcomes[i]);
        }
        lemma_pass_keeps_untouched(before, rest, n);
        assert(outcomes.last() == outcomes[outcomes.len() - 1]);
    }
}

/// A room named by a successful feed of a pass leaves the pass with exactly the
/// intervals that feed gave it, tied to that feed's resource, provided no later
/// successful feed of the pass names it or comes from the same resource.
pub proof fn lemma_pass_takes_latest(
    before: CatalogState,
    outcomes: Seq<(i32, Result<Vec<BusyRecord>, FeedError>)>,
    i: int,
    records: Vec<BusyRecord>,
    n: Seq<char>,
)
    requires
        0 <= i < outcomes.len(),
        outcomes[i].1 == Ok::<Vec<BusyRecord>, FeedError>(records),
        names_in(records@, n),
        forall|j: int|
            i < j < outcomes.len() ==> (#[trigger] outcomes[j].1 matches Ok(later) ==> !names_in(
                later@,
                n,
            ) && outcomes[j].0 != outcomes[i].0),
    ensures
        after_pass(before, outcomes).0.contains_key(n),
        after_pass(before, outcomes).0[n] == intervals_for(records@, n),
        after_pass(before, outcomes).1.contains_key(n),
        after_pass(before, outcomes).1[n] == outcomes[i].0,
    decreases outcomes.len(),
{
    let rest = outcomes.drop_last();
    if i < outcomes.len() - 1 {
        assert(rest[i] == outcomes[i]);
        assert forall|j: int|
            i < j < rest.len() implies (#[trigger] rest[j].1 matches Ok(later) ==> !names_in(
            later@,
            n,
        ) && rest[j].0 != rest[i].0) by {
            assert(rest[j] == outcomes[j]);
        }
        lemma_pass_takes_latest(before, rest, i, records, n);
        assert(outcomes.last() == outcomes[outcomes.len() - 1]);
    } else {
        assert(outcomes.last() == outcomes[i]);
    }
}

/// Each successful feed replaces the busy set of every room it names or that is tied
/// to its resource: an interval the feed does not give the room is gone afterwards,
/// whatever the room held before, even when all of the room's events were removed.
pub proof fn lemma_feed_drops_vanished(
    before: CatalogState,
    id: i32,
    records: Seq<BusyRecord>,
    n: Seq<char>,
    x: Interval,
)
    requires
        names_in(records, n) || (before.0.contains_key(n) && before.1[n] == id),
        !intervals_for(records, n).contains(x),
    ensures
        after_feed(before, id, records).0.contains_key(n),
        !after_feed(before, id, records).0[n].contains(x),
{
}

fn copy_intervals(v: &Vec<Interval>) -> (r: Vec<Interval>)
    ensures
        r@ == v@,
{
    let mut r: Vec<Interval> = Vec::new();
    let mut i: usize = 0;
    while i < v.len()
        invariant
            i <= v@.len(),
            r@ == v@.subrange(0, i as int),
        decreases v.len() - i,
    {
        r.push(v[i]);
        assert(r@ =~= v@.subrange(0, i + 1));
        i = i + 1;
    }
    assert(r@ =~= v@);
    r
}

/// Inserts `x` into `v` at the place its name takes in ascending order.
fn insert_by_name(v: &mut Vec<RoomStatus>, x: RoomStatus)
    requires
        sorted_by_name(old(v)@),
        forall|k: int| 0 <= k < old(v)@.len() ==> #[trigger] old(v)@[k].name@ != x.name@,
    ensures
        sorted_by_name(final(v)@),
        forall|s: RoomStatus| #[trigger] final(v)@.contains(s) <==> old(v)@.contains(s) || s == x,
{
    let mut p: usize = 0;
    while p < v.len() && !precedes(x.name.as_str(), v[p].name.as_str())
        invariant
            p <= v@.len(),
            v@ == old(v)@,
            forall|j: int| 0 <= j < p ==> !name_less(x.name@, #[trigger] v@[j].name@),
        decreases v.len() - p,
    {
        p = p + 1;
    }
    let ghost before = v@;
    proof {
        assert forall|j: int| 0 <= j < p implies name_less(#[trigger] before[j].name@, x.name@) by {
            lemma_name_less_total(before[j].name@, x.name@);
        }
        assert forall|k: int| p <= k < before.len() implies name_less(x.name@, #[trigger] before[k].name@) by {
            if k > p {
                lemma_name_less_transitive(x.name@, before[p as int].name@, before[k].name@);
            }
        }
    }
    v.insert(p, x);
    proof {
        assert forall|j: int, k: int| 0 <= j < k < v@.len() implies name_less(
            #[trigger] v@[j].name@,
            #[trigger] v@[k].name@,
        ) by {
            if k < p {
                assert(v@[j] == before[j] && v@[k] == before[k]);
            } else if k == p {
                assert(v@[j] == before[j]);
            } else if j < p {
                assert(v@[j] == before[j] && v@[k] == before[k - 1]);
                lemma_name_less_transitive(before[j].name@, x.name@, before[k - 1].name@);
            } else if j == p {
                assert(v@[k] == before[k - 1]);
            } else {
                assert(v@[j] == before[j - 1] && v@[k] == before[k - 1]);
            }
        }
        assert forall|s: RoomStatus| #[trigger] v@.contains(s) <==> before.contains(s) || s == x by {
            if v@.contains(s) {
                let k = choose|k: int| 0 <= k < v@.len() && v@[k] == s;
                if k < p {
                    assert(before[k] == s);
                } else if k > p {
                    assert(before[k - 1] == s);
                }
            }
            if before.contains(s) {
                let k = choose|k: int| 0 <= k < before.len() && before[k] == s;
                if k < p {
                    assert(v@[k] == s);
                } else {
                    assert(v@[k + 1] == s);
                }
            }
            if s == x {
                assert(v@[p as int] == s);
            }
        }
    }
}

} // verus!
