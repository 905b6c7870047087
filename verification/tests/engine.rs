use memscan::{
    is_writable_region, locations_window, IntoScan, LocationsStyle, Region, RegionInfo, Scan,
    ScanInfo, ScanType, ScanValue, Scannable, ValueType,
};

fn info(base: usize, size: usize) -> RegionInfo {
    RegionInfo { base, size, protect: 0x04 }
}

#[test]
fn exact_scan_same_memory_fixpoint() {
    // Region base 0x10000, 16 bytes, little-endian i32 values 42, 42, 1, 42.
    let memory = vec![42u8, 0, 0, 0, 42, 0, 0, 0, 1, 0, 0, 0, 42, 0, 0, 0];
    let scan = Scan::<i32>::Exact(42);
    let region = scan.run(info(0x10000, 16), memory.clone());
    assert_eq!(region.locations.addresses(), vec![0x10000, 0x10004, 0x1000c]);
    assert!(matches!(region.locations, LocationsStyle::SameValue { value: 42, .. }));
    let again = scan.rerun(&region, memory);
    assert_eq!(again.locations.addresses(), vec![0x10000, 0x10004, 0x1000c]);
}

#[test]
fn decreased_by_narrows() {
    let memory = vec![10u8, 0, 0, 0, 5, 0, 0, 0];
    let base = 0x4000;
    let first = Scan::<i32>::Exact(10).run(info(base, 8), memory);
    assert_eq!(first.locations.addresses(), vec![base]);

    let later = vec![7u8, 0, 0, 0, 5, 0, 0, 0];
    let kept = Scan::<i32>::DecreasedBy(3).rerun(&first, later.clone());
    assert_eq!(kept.locations.addresses(), vec![base]);
    let none = Scan::<i32>::DecreasedBy(4).rerun(&first, later);
    assert_eq!(none.locations.len(), 0);
}

#[test]
fn first_scan_unknown_records_every_slot() {
    let memory = vec![1u8, 0, 5, 0, 9, 0, 13, 0];
    let region = Scan::<u16>::Unknown.run(info(0x800, 8), memory);
    assert_eq!(region.locations.addresses(), vec![0x800, 0x802, 0x804, 0x806]);
    assert_eq!(
        region.locations,
        LocationsStyle::Range { start: 0x800, end: 0x808, values: vec![1, 5, 9, 13] }
    );
}

#[test]
fn first_scan_in_range_keeps_bounds_inclusive() {
    let memory = vec![1u8, 3, 5, 7, 9, 11];
    let region = Scan::<u8>::InRange(3, 9).run(info(0x100, 6), memory.clone());
    assert_eq!(region.locations.addresses(), vec![0x101, 0x102, 0x103, 0x104]);
    // Four adjacent survivors occupy a full stride, so they compact to a range.
    assert_eq!(
        region.locations,
        LocationsStyle::Range { start: 0x101, end: 0x105, values: vec![3, 5, 7, 9] }
    );
    // A re-scan against the same memory with the change predicates.
    let unchanged = Scan::<u8>::Unchanged.rerun(&region, memory.clone());
    assert_eq!(unchanged.locations.len(), 4);
    let changed = Scan::<u8>::Changed.rerun(&region, memory.clone());
    assert_eq!(changed.locations.len(), 0);
}

#[test]
fn rescan_acceptance_table() {
    let memory = vec![5u8, 5, 5, 5];
    let region = Scan::<u8>::Unknown.run(info(0x100, 4), memory);
    let fresh = vec![4u8, 5, 6, 250];
    assert_eq!(
        Scan::<u8>::Decreased.rerun(&region, fresh.clone()).locations.addresses(),
        vec![0x100]
    );
    assert_eq!(
        Scan::<u8>::Increased.rerun(&region, fresh.clone()).locations.addresses(),
        vec![0x102, 0x103]
    );
    assert_eq!(
        Scan::<u8>::Unchanged.rerun(&region, fresh.clone()).locations.addresses(),
        vec![0x101]
    );
    assert_eq!(
        Scan::<u8>::IncreasedBy(1).rerun(&region, fresh.clone()).locations.addresses(),
        vec![0x102]
    );
    // Wrapping difference: 5 - 250 wraps to 11 in eight bits.
    assert_eq!(
        Scan::<u8>::DecreasedBy(11).rerun(&region, fresh.clone()).locations.addresses(),
        vec![0x103]
    );
    let unknown = Scan::<u8>::Unknown.rerun(&region, fresh);
    assert_eq!(unknown.locations.addresses(), region.locations.addresses());
    assert_eq!(unknown.locations.len(), region.locations.len());
}

#[test]
fn rescan_is_monotonic() {
    let memory = vec![9u8, 9, 9, 9, 9, 9, 9, 9];
    let region = Scan::<u32>::Unknown.run(info(0x1000, 8), memory);
    let fresh = vec![9u8, 9, 9, 9, 1, 0, 0, 0];
    let narrowed = Scan::<u32>::Unchanged.rerun(&region, fresh);
    assert!(narrowed.locations.len() <= region.locations.len());
}

#[test]
fn signed_values_round_trip_through_memory() {
    let v: i64 = -123_456_789_012;
    let bytes = v.to_bytes();
    assert_eq!(bytes, v.to_le_bytes().to_vec());
    assert_eq!(<i64 as Scannable>::from_bytes(&bytes), v);
    let w: i16 = -2;
    assert_eq!(<i16 as Scannable>::from_bytes(&w.to_bytes()), w);
}

#[test]
fn parse_decimal_literals() {
    assert_eq!(<i32 as Scannable>::parse("42"), Some(42));
    assert_eq!(<i32 as Scannable>::parse("-42"), Some(-42));
    assert_eq!(<i32 as Scannable>::parse("+7"), Some(7));
    assert_eq!(<i32 as Scannable>::parse("2147483647"), Some(i32::MAX));
    assert_eq!(<i32 as Scannable>::parse("-2147483648"), Some(i32::MIN));
    assert_eq!(<i32 as Scannable>::parse("2147483648"), None);
    assert_eq!(<i32 as Scannable>::parse(""), None);
    assert_eq!(<i32 as Scannable>::parse("-"), None);
    assert_eq!(<i32 as Scannable>::parse("4x2"), None);
    assert_eq!(<u8 as Scannable>::parse("255"), Some(255));
    assert_eq!(<u8 as Scannable>::parse("256"), None);
    assert_eq!(<u8 as Scannable>::parse("-0"), None);
    assert_eq!(<u64 as Scannable>::parse("18446744073709551615"), Some(u64::MAX));
    assert_eq!(<u64 as Scannable>::parse("18446744073709551616"), None);
    assert_eq!(<u64 as Scannable>::parse("99999999999999999999999999"), None);
    assert_eq!(<i8 as Scannable>::parse("007"), Some(7));
}

#[test]
fn scan_info_to_scan() {
    let exact = ScanInfo { typ: ScanType::Exact, value: Some(ScanValue::Exact("42".to_string())) };
    let scan: Option<Scan<i32>> = exact.to_scan(&ValueType::I32);
    assert_eq!(scan, Some(Scan::Exact(42)));

    // A mismatched value type refuses the scan.
    let exact = ScanInfo { typ: ScanType::Exact, value: Some(ScanValue::Exact("42".to_string())) };
    let scan: Option<Scan<i32>> = exact.to_scan(&ValueType::I64);
    assert_eq!(scan, None);

    // A literal that does not parse at the kind refuses the scan.
    let bad = ScanInfo { typ: ScanType::Exact, value: Some(ScanValue::Exact("many".to_string())) };
    let scan: Option<Scan<i32>> = bad.to_scan(&ValueType::I32);
    assert_eq!(scan, None);

    // A range needs a range-shaped value.
    let misshapen =
        ScanInfo { typ: ScanType::InRange, value: Some(ScanValue::Exact("1".to_string())) };
    let scan: Option<Scan<i32>> = misshapen.to_scan(&ValueType::I32);
    assert_eq!(scan, None);

    let range = ScanInfo {
        typ: ScanType::InRange,
        value: Some(ScanValue::Range { start: "-5".to_string(), end: "5".to_string() }),
    };
    let scan: Option<Scan<i32>> = range.to_scan(&ValueType::I32);
    assert_eq!(scan, Some(Scan::InRange(-5, 5)));

    // Predicates without a value ignore the value field.
    let unknown = ScanInfo { typ: ScanType::Unknown, value: None };
    let scan: Option<Scan<u16>> = unknown.to_scan(&ValueType::U16);
    assert_eq!(scan, Some(Scan::Unknown));
}

#[test]
fn f32_roughly_eq() {
    let left = 0.25f32;
    let right = 0.25000123f32;
    assert_ne!(left, right);
    assert!(memscan::f32_roughly_eq_bits(left.to_bits(), right.to_bits()));
}

#[test]
fn roughly_eq_follows_ieee_corner_cases() {
    // A value equals its own memory representation...
    assert!(memscan::f32_roughly_eq_bits(1.5f32.to_bits(), 1.5f32.to_bits()));
    assert!(memscan::f64_roughly_eq_bits(1.5f64.to_bits(), 1.5f64.to_bits()));
    // ...except a NaN, which equals nothing.
    let nan = f32::NAN.to_bits();
    assert!(!memscan::f32_roughly_eq_bits(nan, nan));
    let nan64 = f64::NAN.to_bits();
    assert!(!memscan::f64_roughly_eq_bits(nan64, nan64));
    // Zeros of both signs are equal.
    assert!(memscan::f32_roughly_eq_bits(0.0f32.to_bits(), (-0.0f32).to_bits()));
    assert!(memscan::f64_roughly_eq_bits(0.0f64.to_bits(), (-0.0f64).to_bits()));
    // Distant values stay distinct.
    assert!(!memscan::f32_roughly_eq_bits(0.25f32.to_bits(), 0.5f32.to_bits()));
    assert!(!memscan::f64_roughly_eq_bits(0.25f64.to_bits(), 0.26f64.to_bits()));
    // f64 drift in the low mantissa half is ignored.
    assert!(memscan::f64_roughly_eq_bits(0.25f64.to_bits(), 0.25000000001f64.to_bits()));
}

#[test]
fn writable_region_filter() {
    assert!(is_writable_region(&RegionInfo { base: 0, size: 4096, protect: 0x04 }));
    assert!(is_writable_region(&RegionInfo { base: 0, size: 4096, protect: 0x40 }));
    assert!(is_writable_region(&RegionInfo { base: 0, size: 4096, protect: 0x80 }));
    assert!(is_writable_region(&RegionInfo { base: 0, size: 4096, protect: 0x08 }));
    // Read-only and guarded regions are discarded.
    assert!(!is_writable_region(&RegionInfo { base: 0, size: 4096, protect: 0x02 }));
    assert!(!is_writable_region(&RegionInfo { base: 0, size: 4096, protect: 0x100 }));
}

#[test]
fn paginated_window_over_regions() {
    let r1 = Region {
        info: info(0x1000, 0x10),
        locations: LocationsStyle::SameValue { locations: vec![0x1000, 0x1004], value: 1i32 },
    };
    let r2 = Region {
        info: info(0x2000, 0x10),
        locations: LocationsStyle::KeyValue(vec![(0x2000, 2), (0x2008, 3), (0x200c, 4)]),
    };
    let regions = vec![r1, r2];
    let (total, window) = locations_window(&regions, 2, 1);
    assert_eq!(total, 5);
    assert_eq!(window.len(), 2);
    assert_eq!(window[0].address, 0x1004);
    assert_eq!(window[0].value, 1);
    assert_eq!(window[1].address, 0x2000);
    assert_eq!(window[1].value, 2);
    // A window past the end is empty; the total stays.
    let (total, tail) = locations_window(&regions, 10, 5);
    assert_eq!(total, 5);
    assert_eq!(tail.len(), 0);
}
