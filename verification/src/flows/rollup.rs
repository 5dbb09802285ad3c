//! Retained metadata: what a stream keeps of the fields its protocol nominates.
use std::collections::VecDeque;

use vstd::prelude::*;

use crate::identity::{PacketDirection, RollupKind, RollupSpec};
use crate::layer::{self, Timestamp};
use crate::text::str_eq;
use crate::value::{self, FieldMap, FieldName, Fields, Value, ValueView};

verus! {

/// A set of distinct values admits no new one beyond this many; observations
/// are still counted.
pub const ACCUMULATE_SET_CAP: usize = 64;

/// One observation of a time series. Its time is kept as a signed offset from
/// the owning stream's start: exact within 292 years, clamped beyond.
#[derive(PartialEq, Eq, Debug)]
pub struct SeriesPoint {
    ts_offset_nanos: i64,
    pub dir: PacketDirection,
    pub value: Value,
}

/// The content of a [`SeriesPoint`].
pub struct Point {
    pub offset: i64,
    pub dir: PacketDirection,
    pub value: ValueView,
}

impl View for SeriesPoint {
    type V = Point;

    closed spec fn view(&self) -> Point {
        Point { offset: self.ts_offset_nanos, dir: self.dir, value: self.value@ }
    }
}

/// `n` within the range of an offset.
pub open spec fn clamped(n: int) -> i64 {
    if n > i64::MAX {
        i64::MAX
    } else if n < i64::MIN {
        i64::MIN
    } else {
        n as i64
    }
}

/// The observation of `value` at `ts`, in a stream that began at `base`.
pub open spec fn point(
    base: Timestamp,
    ts: Timestamp,
    dir: PacketDirection,
    value: ValueView,
) -> Point {
    Point { offset: clamped(ts - base), dir, value }
}

impl SeriesPoint {
    fn new(base: Timestamp, ts: Timestamp, dir: PacketDirection, value: Value) -> (r: SeriesPoint)
        requires
            layer::in_time(base),
            layer::in_time(ts),
        ensures
            r@ == point(base, ts, dir, value@),
    {
        let d: i128 = ts - base;
        let ts_offset_nanos: i64 = if d > i64::MAX as i128 {
            i64::MAX
        } else if d < i64::MIN as i128 {
            i64::MIN
        } else {
            d as i64
        };
        SeriesPoint { ts_offset_nanos, dir, value }
    }

    /// The observation's time, given the owning stream's start.
    pub fn ts(&self, base: Timestamp) -> (r: Timestamp)
        requires
            layer::in_time(base),
        ensures
            r == base + self@.offset,
    {
        base + self.ts_offset_nanos as i128
    }
}

impl Clone for SeriesPoint {
    fn clone(&self) -> (r: SeriesPoint)
        ensures
            r@ == self@,
    {
        SeriesPoint {
            ts_offset_nanos: self.ts_offset_nanos,
            dir: self.dir,
            value: self.value.clone(),
        }
    }
}

/// What is retained of one nominated field.
#[derive(PartialEq, Eq, Debug)]
pub enum Rollup {
    /// The distinct values in the order they came, and how many observations
    /// there were. `overflow` says that values were left out.
    Accumulate { values: Vec<Value>, count: u64, overflow: bool },
    /// The first and the last value.
    Sample { first: Option<Value>, last: Option<Value> },
    /// The most recent observations in the order they came. `truncated` says
    /// that earlier ones were dropped.
    Series { ring: VecDeque<SeriesPoint>, cap: usize, truncated: bool },
}

/// The content of a [`Rollup`].
#[verifier::ext_equal]
pub enum RollupView {
    Accumulate { values: Seq<ValueView>, count: u64, overflow: bool },
    Sample { first: Option<ValueView>, last: Option<ValueView> },
    Series { ring: Seq<Point>, cap: usize, truncated: bool },
}

pub open spec fn points_view(s: Seq<SeriesPoint>) -> Seq<Point> {
    Seq::new(s.len(), |i: int| s[i]@)
}

pub open spec fn maybe_view(v: Option<Value>) -> Option<ValueView> {
    match v {
        Some(v) => Some(v@),
        None => None,
    }
}

impl View for Rollup {
    type V = RollupView;

    open spec fn view(&self) -> RollupView {
        match *self {
            Rollup::Accumulate { values, count, overflow } => RollupView::Accumulate {
                values: value::values_view(values@),
                count,
                overflow,
            },
            Rollup::Sample { first, last } => RollupView::Sample {
                first: maybe_view(first),
                last: maybe_view(last),
            },
            Rollup::Series { ring, cap, truncated } => RollupView::Series {
                ring: points_view(ring@),
                cap,
                truncated,
            },
        }
    }
}

/// The cap of a series: the declared one, or the default where none is
/// declared, and never more than the configured limit (at least one).
pub open spec fn series_cap(declared: usize, default_cap: usize, max_cap: Option<usize>) -> usize {
    let cap = if declared == 0 {
        default_cap
    } else {
        declared
    };
    match max_cap {
        None => cap,
        Some(limit) => {
            let limit = if limit < 1 {
                1
            } else {
                limit
            };
            if cap < limit {
                cap
            } else {
                limit
            }
        },
    }
}

/// What is retained before the first observation.
pub open spec fn unobserved(
    kind: RollupKind,
    default_cap: usize,
    max_cap: Option<usize>,
) -> RollupView {
    match kind {
        RollupKind::Accumulate => RollupView::Accumulate {
            values: Seq::empty(),
            count: 0,
            overflow: false,
        },
        RollupKind::Sample => RollupView::Sample { first: None, last: None },
        RollupKind::Series { cap } => RollupView::Series {
            ring: Seq::empty(),
            cap: series_cap(cap, default_cap, max_cap),
            truncated: false,
        },
    }
}

/// What is retained after one more observation.
pub open spec fn observed(
    r: RollupView,
    base: Timestamp,
    ts: Timestamp,
    dir: PacketDirection,
    v: ValueView,
) -> RollupView {
    match r {
        RollupView::Accumulate { values, count, overflow } => RollupView::Accumulate {
            values: if values.contains(v) || values.len() >= ACCUMULATE_SET_CAP {
                values
            } else {
                values.push(v)
            },
            count: (count + 1) as u64,
            overflow: overflow || (!values.contains(v) && values.len() >= ACCUMULATE_SET_CAP),
        },
        RollupView::Sample { first, last } => RollupView::Sample {
            first: if first is None {
                Some(v)
            } else {
                first
            },
            last: Some(v),
        },
        RollupView::Series { ring, cap, truncated } => {
            let kept = if ring.len() >= cap && ring.len() > 0 {
                ring.drop_first()
            } else {
                ring
            };
            RollupView::Series {
                ring: kept.push(point(base, ts, dir, v)),
                cap,
                truncated: truncated || ring.len() >= cap,
            }
        },
    }
}

/// Whether one more observation can be counted.
pub open spec fn countable(r: RollupView) -> bool {
    r is Accumulate ==> r->count < u64::MAX
}

impl Rollup {
    fn new(kind: RollupKind, default_cap: usize, max_cap: Option<usize>) -> (r: Rollup)
        ensures
            r@ == unobserved(kind, default_cap, max_cap),
    {
        match kind {
            RollupKind::Accumulate => {
                let values: Vec<Value> = Vec::new();
                assert(value::values_view(values@) =~= Seq::empty());
                Rollup::Accumulate { values, count: 0, overflow: false }
            },
            RollupKind::Sample => Rollup::Sample { first: None, last: None },
            RollupKind::Series { cap } => {
                let ring: VecDeque<SeriesPoint> = VecDeque::new();
                assert(points_view(ring@) =~= Seq::empty());
                let cap: usize = if cap == 0 {
                    default_cap
                } else {
                    cap
                };
                let cap: usize = match max_cap {
                    None => cap,
                    Some(limit) => {
                        let limit: usize = if limit < 1 {
                            1
                        } else {
                            limit
                        };
                        if cap < limit {
                            cap
                        } else {
                            limit
                        }
                    },
                };
                Rollup::Series { ring, cap, truncated: false }
            },
        }
    }

    fn observe(&mut self, base: Timestamp, ts: Timestamp, dir: PacketDirection, v: &Value)
        requires
            layer::in_time(base),
            layer::in_time(ts),
            countable(old(self)@),
        ensures
            final(self)@ == observed(old(self)@, base, ts, dir, v@),
    {
        match self {
            Rollup::Accumulate { values, count, overflow } => {
                *count = *count + 1;
                let ghost before = value::values_view(values@);
                if !holds(values, v) {
                    if values.len() < ACCUMULATE_SET_CAP {
                        let copy = v.clone();
                        values.push(copy);
                        assert(value::values_view(values@) =~= before.push(v@));
                    } else {
                        *overflow = true;
                    }
                }
            },
            Rollup::Sample { first, last } => {
                if first.is_none() {
                    *first = Some(v.clone());
                }
                *last = Some(v.clone());
            },
            Rollup::Series { ring, cap, truncated } => {
                let ghost before = points_view(ring@);
                if ring.len() >= *cap {
                    let _oldest = ring.pop_front();
                    *truncated = true;
                    assert(before.len() > 0 ==> points_view(ring@) =~= before.drop_first());
                    assert(before.len() == 0 ==> points_view(ring@) =~= before);
                }
                let ghost kept = points_view(ring@);
                let p = SeriesPoint::new(base, ts, dir, v.clone());
                ring.push_back(p);
                assert(points_view(ring@) =~= kept.push(p@));
            },
        }
    }
}

/// Whether a value is among `values`.
fn holds(values: &Vec<Value>, v: &Value) -> (r: bool)
    ensures
        r == value::values_view(values@).contains(v@),
{
    let n: usize = values.len();
    let mut i: usize = 0;
    while i < n
        invariant
            n == values@.len(),
            i <= n,
            forall|j: int| 0 <= j < i ==> value::values_view(values@)[j] != v@,
        decreases n - i,
    {
        if values[i].same(v) {
            assert(value::values_view(values@)[i as int] == v@);
            return true;
        }
        i = i + 1;
    }
    false
}

fn copy_maybe(v: &Option<Value>) -> (r: Option<Value>)
    ensures
        maybe_view(r) == maybe_view(*v),
{
    match v {
        Some(v) => Some(v.clone()),
        None => None,
    }
}

impl Clone for Rollup {
    fn clone(&self) -> (r: Rollup)
        ensures
            r@ == self@,
    {
        match self {
            Rollup::Accumulate { values, count, overflow } => {
                let n: usize = values.len();
                let mut out: Vec<Value> = Vec::new();
                let mut i: usize = 0;
                while i < n
                    invariant
                        n == values@.len(),
                        i <= n,
                        out@.len() == i,
                        forall|j: int| 0 <= j < i ==> out@[j]@ == values@[j]@,
                    decreases n - i,
                {
                    out.push(values[i].clone());
                    i = i + 1;
                }
                assert(value::values_view(out@) =~= value::values_view(values@));
                Rollup::Accumulate { values: out, count: *count, overflow: *overflow }
            },
            Rollup::Sample { first, last } => Rollup::Sample {
                first: copy_maybe(first),
                last: copy_maybe(last),
            },
            Rollup::Series { ring, cap, truncated } => {
                let n: usize = ring.len();
                let mut out: VecDeque<SeriesPoint> = VecDeque::new();
                let mut i: usize = 0;
                while i < n
                    invariant
                        n == ring@.len(),
                        i <= n,
                        out@.len() == i,
                        forall|j: int| 0 <= j < i ==> out@[j]@ == ring@[j]@,
                    decreases n - i,
                {
                    out.push_back(ring[i].clone());
                    i = i + 1;
                }
                assert(points_view(out@) =~= points_view(ring@));
                Rollup::Series { ring: out, cap: *cap, truncated: *truncated }
            },
        }
    }
}

/// One slot for each field that the protocol nominates.
#[derive(PartialEq, Eq, Debug)]
pub struct RollupSet {
    entries: Vec<(FieldName, Rollup)>,
}

/// The slots, in the order of their declaration.
pub type Rollups = Seq<(Seq<char>, RollupView)>;

impl View for RollupSet {
    type V = Rollups;

    closed spec fn view(&self) -> Rollups {
        Seq::new(self.entries@.len(), |i: int| (self.entries@[i].0@, self.entries@[i].1@))
    }
}

/// The slots before the first packet.
pub open spec fn empty_slots(
    specs: Seq<RollupSpec>,
    default_cap: usize,
    max_cap: Option<usize>,
) -> Rollups {
    Seq::new(
        specs.len(),
        |i: int| (specs[i].field@, unobserved(specs[i].kind, default_cap, max_cap)),
    )
}

/// One slot after a packet with these fields: unchanged where the packet lacks
/// the field.
pub open spec fn updated_slot(
    slot: (Seq<char>, RollupView),
    fields: Fields,
    base: Timestamp,
    ts: Timestamp,
    dir: PacketDirection,
) -> (Seq<char>, RollupView) {
    if fields.contains_key(slot.0) {
        (slot.0, observed(slot.1, base, ts, dir, fields[slot.0]))
    } else {
        slot
    }
}

/// The slots after a packet with these fields.
pub open spec fn updated(
    slots: Rollups,
    fields: Fields,
    base: Timestamp,
    ts: Timestamp,
    dir: PacketDirection,
) -> Rollups {
    Seq::new(slots.len(), |i: int| updated_slot(slots[i], fields, base, ts, dir))
}

/// Whether one more packet can be counted in every slot.
pub open spec fn all_countable(slots: Rollups) -> bool {
    forall|i: int| 0 <= i < slots.len() ==> countable((#[trigger] slots[i]).1)
}

/// The first slot of a name from `i` on.
pub open spec fn slot_of(slots: Rollups, name: Seq<char>, i: int) -> Option<RollupView>
    decreases slots.len() - i,
{
    if i < 0 || i >= slots.len() {
        None
    } else if slots[i].0 == name {
        Some(slots[i].1)
    } else {
        slot_of(slots, name, i + 1)
    }
}

impl RollupSet {
    pub fn new(
        specs: &[RollupSpec],
        series_default_cap: usize,
        series_max_cap: Option<usize>,
    ) -> (r: RollupSet)
        ensures
            r@ == empty_slots(specs@, series_default_cap, series_max_cap),
    {
        let n: usize = specs.len();
        let mut entries: Vec<(FieldName, Rollup)> = Vec::new();
        let mut i: usize = 0;
        while i < n
            invariant
                n == specs@.len(),
                i <= n,
                entries@.len() == i,
                forall|j: int|
                    0 <= j < i ==> (#[trigger] entries@[j]).0 == specs@[j].field
                        && entries@[j].1@ == unobserved(
                        specs@[j].kind,
                        series_default_cap,
                        series_max_cap,
                    ),
            decreases n - i,
        {
            let spec_i = specs[i];
            entries.push(
                (spec_i.field, Rollup::new(spec_i.kind, series_default_cap, series_max_cap)),
            );
            i = i + 1;
        }
        let r = RollupSet { entries };
        assert(r@ =~= empty_slots(specs@, series_default_cap, series_max_cap));
        r
    }

    /// Takes one packet in. A field that the packet lacks is no error: fields
    /// depend on the depth and on what a packet carries.
    pub fn apply(&mut self, fields: &FieldMap, base: Timestamp, ts: Timestamp, dir: PacketDirection)
        requires
            layer::in_time(base),
            layer::in_time(ts),
            all_countable(old(self)@),
        ensures
            final(self)@ == updated(old(self)@, fields@, base, ts, dir),
    {
        let n: usize = self.entries.len();
        let ghost before = self@;
        let mut i: usize = 0;
        while i < n
            invariant
                n == self.entries@.len(),
                i <= n,
                before.len() == n,
                before == old(self)@,
                all_countable(before),
                layer::in_time(base),
                layer::in_time(ts),
                forall|j: int|
                    0 <= j < n ==> (#[trigger] self@[j]) == if j < i {
                        updated_slot(before[j], fields@, base, ts, dir)
                    } else {
                        before[j]
                    },
            decreases n - i,
        {
            assert(self@[i as int] == before[i as int]);
            assert(countable(before[i as int].1));
            let ghost mid = self@;
            let name = self.entries[i].0;
            if let Some(v) = fields.get(name) {
                self.entries[i].1.observe(base, ts, dir, v);
            }
            assert forall|j: int| 0 <= j < n && j != i implies #[trigger] self@[j] == mid[j] by {
                assert(mid[j] == mid[j]);
            }
            i = i + 1;
        }
        assert(self@ =~= updated(before, fields@, base, ts, dir));
    }

    pub fn get(&self, field: &str) -> (r: Option<&Rollup>)
        ensures
            match slot_of(self@, field@, 0) {
                Some(v) => r is Some && r->0@ == v,
                None => r is None,
            },
    {
        let n: usize = self.entries.len();
        let mut i: usize = 0;
        while i < n
            invariant
                n == self.entries@.len(),
                i <= n,
                slot_of(self@, field@, 0) == slot_of(self@, field@, i as int),
            decreases n - i,
        {
            assert(self@[i as int] == (self.entries@[i as int].0@, self.entries@[i as int].1@));
            if str_eq(self.entries[i].0, field) {
                return Some(&self.entries[i].1);
            }
            i = i + 1;
        }
        None
    }

    /// The slots, in the order of their declaration.
    pub fn iter(&self) -> (r: Vec<(FieldName, &Rollup)>)
        ensures
            r@.len() == self@.len(),
            forall|i: int|
                0 <= i < r@.len() ==> (#[trigger] r@[i]).0@ == self@[i].0 && r@[i].1@
                    == self@[i].1,
    {
        let n: usize = self.entries.len();
        let mut out: Vec<(FieldName, &Rollup)> = Vec::new();
        let mut i: usize = 0;
        while i < n
            invariant
                n == self.entries@.len() == self@.len(),
                i <= n,
                out@.len() == i,
                forall|j: int|
                    0 <= j < i ==> (#[trigger] out@[j]).0@ == self@[j].0 && out@[j].1@
                        == self@[j].1,
            decreases n - i,
        {
            out.push((self.entries[i].0, &self.entries[i].1));
            i = i + 1;
        }
        out
    }

    pub fn is_empty(&self) -> (r: bool)
        ensures
            r == (self@.len() == 0),
    {
        self.entries.len() == 0
    }
}

impl Default for RollupSet {
    fn default() -> (r: RollupSet)
        ensures
            r@ == Seq::<(Seq<char>, RollupView)>::empty(),
    {
        let r = RollupSet { entries: Vec::new() };
        assert(r@ =~= Seq::empty());
        r
    }
}

impl Clone for RollupSet {
    fn clone(&self) -> (r: RollupSet)
        ensures
            r@ == self@,
    {
        let n: usize = self.entries.len();
        let mut entries: Vec<(FieldName, Rollup)> = Vec::new();
        let mut i: usize = 0;
        while i < n
            invariant
                n == self.entries@.len(),
                i <= n,
                entries@.len() == i,
                forall|j: int|
                    0 <= j < i ==> (#[trigger] entries@[j]).0 == self.entries@[j].0
                        && entries@[j].1@ == self.entries@[j].1@,
            decreases n - i,
        {
            entries.push((self.entries[i].0, self.entries[i].1.clone()));
            i = i + 1;
        }
        let r = RollupSet { entries };
        assert(r@ =~= self@);
        r
    }
}

/// What holds of a slot after any number of observations: a set of distinct
/// values within its cap, full once values are left out; a series within its
/// cap, full once observations are dropped.
pub open spec fn bounded(r: RollupView) -> bool {
    match r {
        RollupView::Accumulate { values, count, overflow } => {
            &&& values.len() <= ACCUMULATE_SET_CAP
            &&& values.len() <= count
            &&& values.no_duplicates()
            &&& overflow ==> values.len() == ACCUMULATE_SET_CAP
        },
        RollupView::Sample { first, last } => first is Some <==> last is Some,
        RollupView::Series { ring, cap, truncated } => {
            &&& cap > 0 ==> ring.len() <= cap
            &&& truncated && cap > 0 ==> ring.len() == cap
        },
    }
}

/// Every slot is bounded from the start.
pub proof fn unobserved_is_bounded(kind: RollupKind, default_cap: usize, max_cap: Option<usize>)
    ensures
        bounded(unobserved(kind, default_cap, max_cap)),
{
}

/// An observation keeps a slot bounded.
pub proof fn observed_stays_bounded(
    r: RollupView,
    base: Timestamp,
    ts: Timestamp,
    dir: PacketDirection,
    v: ValueView,
)
    requires
        bounded(r),
        countable(r),
    ensures
        bounded(observed(r, base, ts, dir, v)),
{
    if r is Accumulate {
        let values = r->values;
        if !values.contains(v) {
            assert forall|i: int, j: int|
                0 <= i < values.push(v).len() && 0 <= j < values.push(v).len() && i
                    != j implies values.push(v)[i] != values.push(v)[j] by {}
        }
    }
}

/// A configured limit holds for every series, whatever cap its protocol
/// declares, and takes nothing from a cap that is within it.
pub proof fn the_limit_outranks_declared_caps(declared: usize, default_cap: usize, limit: usize)
    ensures
        limit > 0 ==> series_cap(declared, default_cap, Some(limit)) <= limit,
        series_cap(declared, default_cap, Some(0)) <= 1,
        0 < declared <= limit ==> series_cap(declared, default_cap, Some(limit)) == declared,
        declared > 0 ==> series_cap(declared, default_cap, Some(limit)) > 0,
        declared > 0 ==> series_cap(declared, default_cap, None) == declared,
{
}

/// One observation: when, in which direction, and of what.
pub struct Sighting {
    pub ts: Timestamp,
    pub dir: PacketDirection,
    pub value: ValueView,
}

/// What is retained after the first `n` sightings of a stream that began at
/// `base`.
pub open spec fn observed_all(
    r: RollupView,
    base: Timestamp,
    seen: Seq<Sighting>,
    n: int,
) -> RollupView
    decreases n,
{
    if n <= 0 {
        r
    } else {
        let o = seen[n - 1];
        observed(observed_all(r, base, seen, n - 1), base, o.ts, o.dir, o.value)
    }
}

/// The points of the first `n` sightings.
pub open spec fn points(base: Timestamp, seen: Seq<Sighting>, n: int) -> Seq<Point> {
    Seq::new(n as nat, |i: int| point(base, seen[i].ts, seen[i].dir, seen[i].value))
}

/// A series keeps the latest sightings, as many as its cap, in their order, and
/// says so once it dropped any.
pub proof fn series_keep_the_latest(
    base: Timestamp,
    cap: usize,
    seen: Seq<Sighting>,
    n: int,
)
    requires
        0 <= n <= seen.len(),
        cap > 0,
    ensures
        ({
            let r = RollupView::Series { ring: Seq::empty(), cap, truncated: false };
            let all = points(base, seen, n);
            observed_all(r, base, seen, n) == (RollupView::Series {
                ring: if n <= cap {
                    all
                } else {
                    all.skip(n - cap)
                },
                cap,
                truncated: n > cap,
            })
        }),
    decreases n,
{
    let r = RollupView::Series { ring: Seq::empty(), cap, truncated: false };
    let all = points(base, seen, n);
    if n > 0 {
        series_keep_the_latest(base, cap, seen, n - 1);
        let before = points(base, seen, n - 1);
        assert(all =~= before.push(all[n - 1]));
        if n > cap {
            if n - 1 <= cap {
                assert(before.drop_first().push(all[n - 1]) =~= all.skip(n - cap));
            } else {
                assert(before.skip(n - 1 - cap).drop_first().push(all[n - 1]) =~= all.skip(
                    n - cap,
                ));
            }
        }
    } else {
        assert(all =~= Seq::empty());
    }
}

/// A sample keeps the first sighting's value and the latest one's.
pub proof fn samples_keep_the_ends(base: Timestamp, seen: Seq<Sighting>, n: int)
    requires
        0 < n <= seen.len(),
    ensures
        observed_all(RollupView::Sample { first: None, last: None }, base, seen, n) == (
        RollupView::Sample { first: Some(seen[0].value), last: Some(seen[n - 1].value) }),
    decreases n,
{
    reveal_with_fuel(observed_all, 2);
    if n > 1 {
        samples_keep_the_ends(base, seen, n - 1);
    }
}

/// The distinct values of the first `n` sightings, in the order in which they
/// first came.
pub open spec fn distinct_values(seen: Seq<Sighting>, n: int) -> Seq<ValueView>
    decreases n,
{
    if n <= 0 {
        Seq::empty()
    } else {
        let before = distinct_values(seen, n - 1);
        if before.contains(seen[n - 1].value) {
            before
        } else {
            before.push(seen[n - 1].value)
        }
    }
}

/// An accumulated set counts every sighting and keeps the first distinct values up
/// to its cap, in the order in which they first came; it says so once it left one
/// out.
pub proof fn sets_keep_the_first(base: Timestamp, seen: Seq<Sighting>, n: int)
    requires
        0 <= n <= seen.len(),
        n <= u64::MAX,
    ensures
        ({
            let r = RollupView::Accumulate { values: Seq::empty(), count: 0, overflow: false };
            let all = distinct_values(seen, n);
            observed_all(r, base, seen, n) == (RollupView::Accumulate {
                values: if all.len() <= ACCUMULATE_SET_CAP {
                    all
                } else {
                    all.take(ACCUMULATE_SET_CAP as int)
                },
                count: n as u64,
                overflow: all.len() > ACCUMULATE_SET_CAP,
            })
        }),
    decreases n,
{
    if n > 0 {
        sets_keep_the_first(base, seen, n - 1);
        let before = distinct_values(seen, n - 1);
        let v = seen[n - 1].value;
        if before.len() > ACCUMULATE_SET_CAP {
            let kept = before.take(ACCUMULATE_SET_CAP as int);
            assert(before.push(v).take(ACCUMULATE_SET_CAP as int) =~= kept);
        } else if before.len() == ACCUMULATE_SET_CAP {
            assert(before.push(v).take(ACCUMULATE_SET_CAP as int) =~= before);
        }
    }
}

/// A point within 292 years of its stream's start gives back its exact time.
pub proof fn points_keep_their_time(
    base: Timestamp,
    ts: Timestamp,
    dir: PacketDirection,
    v: ValueView,
)
    requires
        i64::MIN <= ts - base <= i64::MAX,
    ensures
        base + point(base, ts, dir, v).offset == ts,
{
}

/// Farther off, a point's time stops at the farthest that can be told, on its own side of
/// the start; what was seen and in which direction is kept wherever it stands.
pub proof fn far_points_stop_at_the_ends(
    base: Timestamp,
    ts: Timestamp,
    dir: PacketDirection,
    v: ValueView,
)
    ensures
        ts - base > i64::MAX ==> point(base, ts, dir, v).offset == i64::MAX,
        ts - base < i64::MIN ==> point(base, ts, dir, v).offset == i64::MIN,
        point(base, ts, dir, v).dir == dir,
        point(base, ts, dir, v).value == v,
{
}

} // verus!
