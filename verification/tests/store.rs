use memscan::LocationsStyle;
use memscan::Region;
use memscan::RegionInfo;

const VALUE: i32 = 3;
const VALUES: Vec<i32> = Vec::new();

#[test]
fn compact_uncompactable() {
    // Same value
    let mut locations = LocationsStyle::SameValue { locations: vec![0x2000], value: VALUE };
    locations.try_compact();
    assert!(matches!(locations, LocationsStyle::SameValue { .. }));

    // Range
    let mut locations = LocationsStyle::Range { start: 0x2000, end: 0x2100, values: VALUES };
    locations.try_compact();
    assert!(matches!(locations, LocationsStyle::Range { .. }));

    // Already compacted
    let mut locations = LocationsStyle::Offsetted {
        base: 0x2000,
        offsets: vec![(0, 0), (0x20, 1), (0x40, 2)],
    };
    locations.try_compact();
    assert!(matches!(locations, LocationsStyle::Offsetted { .. }));

    let mut locations = LocationsStyle::Masked {
        base: 0x2000,
        mask: vec![true, false, false, false],
        values: VALUES,
    };
    locations.try_compact();
    assert!(matches!(locations, LocationsStyle::Masked { .. }));
}

#[test]
fn compact_not_worth() {
    // Too small
    let mut locations = LocationsStyle::KeyValue(vec![(0x2000, 0)]);
    let original = locations.clone();
    locations.try_compact();
    assert_eq!(locations, original);

    // Too sparse and too large to fit in `Offsetted`.
    let mut locations = LocationsStyle::KeyValue(vec![(0x2000, 0), (0x42000, 1)]);
    let original = locations.clone();
    locations.try_compact();
    assert_eq!(locations, original);
}

#[test]
fn compact_range() {
    let mut locations = LocationsStyle::KeyValue(vec![
        (0x2000, -2),
        (0x2004, -1),
        (0x2008, 0),
        (0x200c, 1),
        (0x2010, 2),
        (0x2014, 3),
        (0x2018, 4),
        (0x201c, 5),
        (0x2020, 6),
    ]);
    locations.try_compact();
    assert_eq!(
        locations,
        LocationsStyle::Range { start: 0x2000, end: 0x2021, values: vec![-2, -1, 0, 1, 2, 3, 4, 5, 6] }
    );
}

#[test]
fn compact_excluded_range() {
    let mut entries: Vec<(usize, i16)> = Vec::new();
    for addr in (0x400..0x481usize).step_by(2) {
        if addr % 91 != 0 {
            entries.push((addr, (addr / 2) as i16));
        }
    }
    let mut locations = LocationsStyle::KeyValue(entries);
    locations.try_compact();
    assert_eq!(
        locations,
        LocationsStyle::ExcludedRange {
            start: 0x400,
            end: 0x481,
            excluded: (0x400..=0x480usize).step_by(2).filter(|addr| addr % 91 == 0).collect::<Vec<_>>(),
            values: (0x400..=0x480usize)
                .step_by(2)
                .filter_map(|addr| {
                    if addr % 91 == 0 {
                        None
                    } else {
                        Some((addr / 2) as i16)
                    }
                })
                .collect()
        }
    );
}

#[test]
fn compact_offsetted() {
    let mut locations = LocationsStyle::KeyValue(vec![(0x2000, 0), (0x2004, 1), (0x2040, 2)]);
    locations.try_compact();
    assert_eq!(
        locations,
        LocationsStyle::Offsetted {
            base: 0x2000,
            offsets: vec![(0x0000, 0), (0x0004, 1), (0x0040, 2)],
        }
    );
}

#[test]
fn compact_masked() {
    let mut locations = LocationsStyle::KeyValue(vec![
        (0x2000, 0),
        (0x2004, 1),
        // (0x2008, -1), Not presented
        (0x200c, 2),
        (0x2010, 3),
        (0x2014, 4),
        (0x2018, 5),
        (0x201c, 6),
        // (0x2020, -1), Not presented
        (0x2024, 7),
    ]);
    locations.try_compact();
    assert_eq!(
        locations,
        LocationsStyle::Masked {
            base: 0x2000,
            mask: vec![true, true, false, true, true, true, true, true, false, true],
            values: vec![0, 1, 2, 3, 4, 5, 6, 7]
        }
    );
}

#[test]
fn iter_same_value() {
    let locations = LocationsStyle::SameValue { locations: vec![0x2000, 0x2004, 0x200c], value: VALUE };
    assert_eq!(locations.addresses(), vec![0x2000, 0x2004, 0x200c]);
}

#[test]
fn iter_key_value() {
    let locations = LocationsStyle::<i32>::KeyValue(vec![(0x2000, 0), (0x2004, 1), (0x200c, 2)]);
    assert_eq!(locations.addresses(), vec![0x2000, 0x2004, 0x200c]);
}

#[test]
fn iter_offsetted() {
    let locations = LocationsStyle::<i32>::Offsetted {
        base: 0x2000,
        offsets: vec![(0x0000, 0), (0x0004, 1), (0x000c, 2)],
    };
    assert_eq!(locations.addresses(), vec![0x2000, 0x2004, 0x200c]);
}

#[test]
fn iter_range() {
    let locations = LocationsStyle::Range { start: 0x2000, end: 0x2010, values: VALUES };
    assert_eq!(locations.addresses(), vec![0x2000, 0x2004, 0x2008, 0x200c]);
}

#[test]
fn iter_masked() {
    let locations = LocationsStyle::Masked {
        base: 0x2000,
        mask: vec![true, true, false, true],
        values: VALUES,
    };
    assert_eq!(locations.addresses(), vec![0x2000, 0x2004, 0x200c]);
}

#[test]
fn len_matches_addresses_every_encoding() {
    let stores: Vec<LocationsStyle<i32>> = vec![
        LocationsStyle::KeyValue(vec![(0x2000, 1), (0x2008, 2)]),
        LocationsStyle::SameValue { locations: vec![0x2000, 0x2004], value: 9 },
        LocationsStyle::Range { start: 0x2000, end: 0x2011, values: vec![1, 2, 3, 4, 5] },
        LocationsStyle::ExcludedRange {
            start: 0x2000,
            end: 0x2011,
            excluded: vec![0x2008],
            values: vec![1, 2, 4, 5],
        },
        LocationsStyle::Offsetted { base: 0x2000, offsets: vec![(0, 1), (8, 2)] },
        LocationsStyle::Masked {
            base: 0x2000,
            mask: vec![true, false, true, true, false],
            values: vec![1, 2, 3],
        },
    ];
    for store in stores {
        assert_eq!(store.len(), store.addresses().len());
    }
}

#[test]
fn into_locations_matches_addresses() {
    let store = LocationsStyle::ExcludedRange {
        start: 0x2000,
        end: 0x2011,
        excluded: vec![0x2008],
        values: vec![1, 2, 4, 5],
    };
    let addresses = store.addresses();
    let locations = store.into_locations();
    assert_eq!(locations.len(), addresses.len());
    for (loc, addr) in locations.iter().zip(addresses.iter()) {
        assert_eq!(loc.address, *addr);
    }
    let values: Vec<i32> = locations.iter().map(|l| l.value).collect();
    assert_eq!(values, vec![1, 2, 4, 5]);
}

#[test]
fn value_at_every_encoding() {
    let info = RegionInfo { base: 0x2000, size: 0x100, protect: 0x04 };
    let region = |locations: LocationsStyle<i32>| Region { info, locations };

    let r = region(LocationsStyle::KeyValue(vec![(0x2000, 7), (0x2008, 8)]));
    assert_eq!(r.value_at(0x2000), 7);
    assert_eq!(r.value_at(0x2008), 8);

    let r = region(LocationsStyle::SameValue { locations: vec![0x2000, 0x2004], value: 42 });
    assert_eq!(r.value_at(0x2004), 42);

    let r = region(LocationsStyle::Range { start: 0x2000, end: 0x2011, values: vec![1, 2, 3, 4, 5] });
    assert_eq!(r.value_at(0x2000), 1);
    assert_eq!(r.value_at(0x2010), 5);

    let r = region(LocationsStyle::ExcludedRange {
        start: 0x2000,
        end: 0x2011,
        excluded: vec![0x2008],
        values: vec![1, 2, 4, 5],
    });
    assert_eq!(r.value_at(0x2004), 2);
    assert_eq!(r.value_at(0x200c), 4);

    let r = region(LocationsStyle::Offsetted { base: 0x2000, offsets: vec![(0, 1), (8, 2)] });
    assert_eq!(r.value_at(0x2008), 2);

    let r = region(LocationsStyle::Masked {
        base: 0x2000,
        mask: vec![true, false, true, true],
        values: vec![1, 3, 4],
    });
    assert_eq!(r.value_at(0x2000), 1);
    assert_eq!(r.value_at(0x2008), 3);
    assert_eq!(r.value_at(0x200c), 4);
}

#[test]
fn compaction_keeps_the_pairs() {
    let entries: Vec<(usize, i32)> = vec![
        (0x2000, 10),
        (0x2004, 11),
        (0x200c, 12),
        (0x2010, 13),
        (0x2014, 14),
        (0x2018, 15),
        (0x201c, 16),
        (0x2024, 17),
    ];
    let mut store = LocationsStyle::KeyValue(entries.clone());
    store.try_compact();
    assert!(matches!(store, LocationsStyle::Masked { .. }));
    let flattened: Vec<(usize, i32)> =
        store.into_locations().into_iter().map(|l| (l.address, l.value)).collect();
    assert_eq!(flattened, entries);
}
