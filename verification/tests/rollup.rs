use pktflow::flows::rollup::{ACCUMULATE_SET_CAP, Rollup, RollupSet, SeriesPoint};
use pktflow::identity::{PacketDirection, RollupKind, RollupSpec};
use pktflow::value::{FieldMap, Value};

const SEC: i128 = 1_000_000_000;

const TS: i128 = 0;
const DIR: PacketDirection = PacketDirection::AtoB;

fn one_field(v: u64) -> FieldMap {
    let mut m = FieldMap::new();
    m.insert("f", Value::U64(v));
    m
}

fn set_of(kind: RollupKind) -> RollupSet {
    RollupSet::new(&[RollupSpec { field: "f", kind }], 1024, None)
}

#[test]
fn accumulate_cap_boundaries() {
    let cap = ACCUMULATE_SET_CAP as u64;
    for (observations, expect_len, expect_overflow) in [
        (cap - 1, cap - 1, false),
        (cap, cap, false),
        (cap + 1, cap, true),
    ] {
        let mut set = set_of(RollupKind::Accumulate);
        for i in 0..observations {
            set.apply(&one_field(i), TS, TS, DIR);
        }
        // A duplicate never counts against the cap.
        set.apply(&one_field(0), TS, TS, DIR);
        match set.get("f") {
            Some(Rollup::Accumulate {
                values,
                count,
                overflow,
            }) => {
                assert_eq!(values.len() as u64, expect_len);
                assert_eq!(*count, observations + 1);
                assert_eq!(*overflow, expect_overflow);
            }
            other => panic!("wrong rollup: {other:?}"),
        }
    }
}

#[test]
fn sample_keeps_first_and_last() {
    let mut set = set_of(RollupKind::Sample);
    assert_eq!(
        set.get("f"),
        Some(&Rollup::Sample {
            first: None,
            last: None
        })
    );
    for i in [7, 8, 9] {
        set.apply(&one_field(i), TS, TS, DIR);
    }
    assert_eq!(
        set.get("f"),
        Some(&Rollup::Sample {
            first: Some(Value::U64(7)),
            last: Some(Value::U64(9))
        })
    );
}

#[test]
fn series_cap_boundaries() {
    for (observations, expect_len, expect_truncated, expect_front) in
        [(3u64, 3, false, 0), (4, 4, false, 0), (5, 4, true, 1)]
    {
        let mut set = set_of(RollupKind::Series { cap: 4 });
        for i in 0..observations {
            set.apply(&one_field(i), TS, TS, DIR);
        }
        match set.get("f") {
            Some(Rollup::Series {
                ring,
                cap,
                truncated,
            }) => {
                assert_eq!(*cap, 4);
                assert_eq!(ring.len() as u64, expect_len);
                assert_eq!(*truncated, expect_truncated);
                assert_eq!(
                    ring.front().map(|p| p.value.clone()),
                    Some(Value::U64(expect_front))
                );
            }
            other => panic!("wrong rollup: {other:?}"),
        }
    }
}

#[test]
fn same_sequence_yields_identical_contents_including_order() {
    let feed = |set: &mut RollupSet| {
        for i in [3u64, 1, 4, 1, 5, 9, 2, 6, 5, 3] {
            set.apply(&one_field(i), TS, TS, DIR);
        }
    };
    let mut a = set_of(RollupKind::Accumulate);
    let mut b = set_of(RollupKind::Accumulate);
    feed(&mut a);
    feed(&mut b);
    assert_eq!(a, b);
    // Insertion order, not value order.
    match a.get("f") {
        Some(Rollup::Accumulate { values, .. }) => {
            let order: Vec<_> = values
                .iter()
                .map(|v| match v {
                    Value::U64(n) => *n,
                    other => panic!("unexpected {other:?}"),
                })
                .collect();
            assert_eq!(order, [3, 1, 4, 5, 9, 2, 6]);
        }
        other => panic!("wrong rollup: {other:?}"),
    }
}

// the compact representation keeps the non-value overhead of
// a point within 16 bytes (offset + direction + padding).
#[test]
fn series_point_overhead_is_at_most_16_bytes() {
    assert!(
        std::mem::size_of::<SeriesPoint>() - std::mem::size_of::<Value>() <= 16,
        "SeriesPoint overhead grew past 16 bytes"
    );
}

// the configured clamp overrides even explicit plugin caps,
// never below 1; `None` leaves declared caps alone.
#[test]
fn series_max_cap_clamps_declared_caps() {
    for (declared, clamp, expect) in [
        (1024, Some(128), 128),
        (64, Some(128), 64),
        (0, Some(128), 128), // default (1024) then clamped
        (1024, Some(0), 1),  // clamp floor
        (1024, None, 1024),
    ] {
        let set = RollupSet::new(
            &[RollupSpec {
                field: "f",
                kind: RollupKind::Series { cap: declared },
            }],
            1024,
            clamp,
        );
        match set.get("f") {
            Some(Rollup::Series { cap, .. }) => {
                assert_eq!(*cap, expect, "declared {declared}, clamp {clamp:?}")
            }
            other => panic!("wrong rollup: {other:?}"),
        }
    }
}

// the compact offset representation round-trips timestamps
// exactly — including out-of-order timestamps before the base.
#[test]
fn series_point_ts_round_trips_exactly() {
    let base: i128 = 1_700_000_000 * SEC + 123_456_789;
    for offset in [
        0,
        1,
        86_400 * 49 * SEC + 999_999_999, // past a u32-ms horizon
    ] {
        for ts in [base + offset, base - offset] {
            let mut set = set_of(RollupKind::Series { cap: 4 });
            set.apply(&one_field(1), base, ts, DIR);
            match set.get("f") {
                Some(Rollup::Series { ring, .. }) => {
                    assert_eq!(ring[0].ts(base), ts, "offset {offset:?}")
                }
                other => panic!("wrong rollup: {other:?}"),
            }
        }
    }
}

#[test]
fn absent_field_is_a_noop_not_an_error() {
    // Depth interaction: at Depth::Keys a Structure-only field
    // simply never arrives — the rollup stays empty.
    let mut set = set_of(RollupKind::Accumulate);
    let mut other = FieldMap::new();
    other.insert("unrelated", Value::Bool(true));
    set.apply(&other, TS, TS, DIR);
    assert_eq!(
        set.get("f"),
        Some(&Rollup::Accumulate {
            values: Vec::new(),
            count: 0,
            overflow: false
        })
    );
}
