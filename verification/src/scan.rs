use crate::region::{
    has_key, lemma_slot_in_span, mutually_aligned, slot_count, sorted_strict, LocationsStyle,
    Region, RegionInfo,
};
use crate::scannable::Scannable;
use core::cmp::Ordering;
use vstd::prelude::*;

verus! {

/// A scan type.
///
/// The variant determines how a memory scan should be performed.
#[derive(Clone, Copy, Debug, PartialEq)]
pub enum Scan<V: Scannable> {
    /// Perform an exact memory scan.
    /// Only memory locations containing this exact value will be considered.
    Exact(V),
    /// The value is unknown.
    /// Every memory location is considered valid. This only makes sense for a first scan.
    Unknown,
    /// The value is contained within a given range.
    InRange(V, V),
    /// The value has not changed since the last scan.
    /// This only makes sense for subsequent scans.
    Unchanged,
    /// The value has changed since the last scan.
    /// This only makes sense for subsequent scans.
    Changed,
    /// The value has decreased by some unknown amount since the last scan.
    /// This only makes sense for subsequent scans.
    Decreased,
    /// The value has increased by some unknown amount since the last scan.
    /// This only makes sense for subsequent scans.
    Increased,
    /// The value has decreased by the given amount since the last scan.
    /// This only makes sense for subsequent scans.
    DecreasedBy(V),
    /// The value has increased by the given amount since the last scan.
    /// This only makes sense for subsequent scans.
    IncreasedBy(V),
}

/// Whether a scan accepts the change from `old` to `new` at one location.
pub open spec fn accepts<V: Scannable>(scan: Scan<V>, old: V, new: V) -> bool {
    match scan {
        Scan::Exact(n) => n.spec_eq(new),
        Scan::Unknown => true,
        Scan::InRange(low, high) => low.spec_cmp(new) != Ordering::Greater && high.spec_cmp(new)
            != Ordering::Less,
        Scan::Unchanged => old.spec_eq(new),
        Scan::Changed => !old.spec_eq(new),
        Scan::Decreased => old.spec_cmp(new) == Ordering::Greater,
        Scan::Increased => old.spec_cmp(new) == Ordering::Less,
        Scan::DecreasedBy(n) => n.spec_eq(old.spec_sub(new)),
        Scan::IncreasedBy(n) => n.spec_eq(new.spec_sub(old)),
    }
}

/// Whether a scan accepts a location on a first pass, where there is no
/// previous value; predicates about change hold of every location then.
pub open spec fn accepts_fresh<V: Scannable>(scan: Scan<V>, new: V) -> bool {
    match scan {
        Scan::Exact(n) => n.spec_eq(new),
        Scan::InRange(low, high) => low.spec_cmp(new) != Ordering::Greater && high.spec_cmp(new)
            != Ordering::Less,
        _ => true,
    }
}

/// The `size`-byte window of aligned slot `k`.
pub open spec fn window_at(mem: Seq<u8>, size: int, k: int) -> Seq<u8> {
    mem.subrange(k * size, k * size + size)
}

/// The `(address, value)` pairs a first scan keeps from the first `n` aligned
/// slots of a memory buffer that starts at address `base`.
pub open spec fn first_scan_pairs<V: Scannable>(
    scan: Scan<V>,
    mem: Seq<u8>,
    base: int,
    n: int,
) -> Seq<(usize, V)>
    decreases n,
{
    let size = V::byte_size() as int;
    if n <= 0 {
        Seq::empty()
    } else {
        let prefix = first_scan_pairs(scan, mem, base, n - 1);
        let v = V::decode(window_at(mem, size, n - 1));
        if accepts_fresh(scan, v) {
            prefix.push(((base + (n - 1) * size) as usize, v))
        } else {
            prefix
        }
    }
}

/// The `(address, value)` pairs a re-scan keeps from the first `i` previous
/// pairs, against a fresh memory buffer that starts at address `base`.
pub open spec fn rescan_pairs<V: Scannable>(
    scan: Scan<V>,
    prev: Seq<(usize, V)>,
    mem: Seq<u8>,
    base: int,
    i: int,
) -> Seq<(usize, V)>
    decreases i,
{
    let size = V::byte_size() as int;
    if i <= 0 {
        Seq::empty()
    } else {
        let prefix = rescan_pairs(scan, prev, mem, base, i - 1);
        let a = prev[i - 1].0;
        let v = V::decode(mem.subrange(a - base, a - base + size));
        if accepts(scan, prev[i - 1].1, v) {
            prefix.push((a, v))
        } else {
            prefix
        }
    }
}

/// Whether `pr` is a pair that a first scan over `n` slots could have kept:
/// an aligned slot address paired with its decoded value, accepted fresh.
pub open spec fn first_pair_ok<V: Scannable>(
    scan: Scan<V>,
    mem: Seq<u8>,
    base: int,
    n: int,
    pr: (usize, V),
) -> bool {
    exists|k: int|
        {
            &&& 0 <= k < n
            &&& pr == (((base + k * (V::byte_size() as int)) as usize), V::decode(
                #[trigger] window_at(mem, V::byte_size() as int, k),
            ))
            &&& accepts_fresh(scan, V::decode(window_at(mem, V::byte_size() as int, k)))
        }
}

/// Whether `pr` is a pair that a re-scan over the first `i` previous pairs
/// could have kept: a previous address paired with its freshly decoded value,
/// with the change from the previous value accepted.
pub open spec fn rescan_pair_ok<V: Scannable>(
    scan: Scan<V>,
    prev: Seq<(usize, V)>,
    mem: Seq<u8>,
    base: int,
    i: int,
    pr: (usize, V),
) -> bool {
    exists|j: int|
        {
            &&& 0 <= j < i
            &&& pr == ((#[trigger] prev[j]).0, V::decode(
                mem.subrange(prev[j].0 - base, prev[j].0 - base + V::byte_size() as int),
            ))
            &&& accepts(
                scan,
                prev[j].1,
                V::decode(mem.subrange(prev[j].0 - base, prev[j].0 - base + V::byte_size() as int)),
            )
        }
}

/// Shape of the pairs a first scan keeps: ascending aligned addresses inside
/// the scanned span, and an aligned slot survives exactly when the scan
/// accepts its decoded value.
pub proof fn lemma_first_scan_pairs_props<V: Scannable>(
    scan: Scan<V>,
    mem: Seq<u8>,
    base: int,
    n: int,
)
    requires
        1 <= V::byte_size(),
        0 <= base,
        n >= 0,
        base + n * (V::byte_size() as int) <= usize::MAX + 1,
    ensures
        first_scan_pairs(scan, mem, base, n).len() <= n,
        sorted_strict(first_scan_pairs(scan, mem, base, n).map_values(|p: (usize, V)| p.0)),
        mutually_aligned(
            first_scan_pairs(scan, mem, base, n).map_values(|p: (usize, V)| p.0),
            V::byte_size() as int,
        ),
        forall|i: int|
            0 <= i < first_scan_pairs(scan, mem, base, n).len() ==> first_pair_ok(
                scan,
                mem,
                base,
                n,
                #[trigger] first_scan_pairs(scan, mem, base, n)[i],
            ),
        forall|k: int|
            0 <= k < n ==> (has_key(
                first_scan_pairs(scan, mem, base, n),
                base + #[trigger] (k * (V::byte_size() as int)),
            ) <==> accepts_fresh(scan, V::decode(window_at(mem, V::byte_size() as int, k)))),
    decreases n,
{
    let size = V::byte_size() as int;
    let s = first_scan_pairs(scan, mem, base, n);
    if n > 0 {
        assert((n - 1) * size + size == n * size) by (nonlinear_arith);
        lemma_first_scan_pairs_props(scan, mem, base, n - 1);
        let prefix = first_scan_pairs(scan, mem, base, n - 1);
        let aa = (base + (n - 1) * size) as usize;
        assert(base + (n - 1) * size <= usize::MAX);
        assert forall|p: int| 0 <= p < prefix.len() implies (prefix[p].0 as int) < base + (n - 1)
            * size && (prefix[p].0 as int) % size == base % size by {
            let k = choose|k: int|
                {
                    &&& 0 <= k < n - 1
                    &&& prefix[p] == (((base + k * (V::byte_size() as int)) as usize), V::decode(
                        #[trigger] window_at(mem, V::byte_size() as int, k),
                    ))
                    &&& accepts_fresh(scan, V::decode(window_at(mem, V::byte_size() as int, k)))
                };
            assert(k * size < (n - 1) * size) by (nonlinear_arith)
                requires
                    0 <= k < n - 1,
                    size >= 1,
            ;
            vstd::arithmetic::div_mod::lemma_mod_multiples_vanish(k, base, size);
            assert(size * k == k * size) by (nonlinear_arith);
        }
        vstd::arithmetic::div_mod::lemma_mod_multiples_vanish(n - 1, base, size);
        assert(size * (n - 1) == (n - 1) * size) by (nonlinear_arith);
        assert(aa as int % size == base % size);
        assert forall|p: int| 0 <= p < prefix.len() implies first_pair_ok(
            scan,
            mem,
            base,
            n,
            #[trigger] prefix[p],
        ) by {
            let k = choose|k: int|
                {
                    &&& 0 <= k < n - 1
                    &&& prefix[p] == (((base + k * (V::byte_size() as int)) as usize), V::decode(
                        #[trigger] window_at(mem, V::byte_size() as int, k),
                    ))
                    &&& accepts_fresh(scan, V::decode(window_at(mem, V::byte_size() as int, k)))
                };
            assert(0 <= k < n);
        }
        if accepts_fresh(scan, V::decode(window_at(mem, size, n - 1))) {
            assert(s == prefix.push((aa, V::decode(window_at(mem, size, n - 1)))));
            assert(s.map_values(|p: (usize, V)| p.0) =~= prefix.map_values(
                |p: (usize, V)| p.0,
            ).push(aa));
            assert(first_pair_ok(scan, mem, base, n, s[s.len() - 1]));
            assert forall|k: int|
                0 <= k < n implies (has_key(s, base + #[trigger] (k * size)) <==> accepts_fresh(
                scan,
                V::decode(window_at(mem, V::byte_size() as int, k)),
            )) by {
                if k < n - 1 {
                    assert(k * size < (n - 1) * size) by (nonlinear_arith)
                        requires
                            0 <= k < n - 1,
                            size >= 1,
                    ;
                    if has_key(s, base + k * size) {
                        let ei = choose|ei: int|
                            0 <= ei < s.len() && (#[trigger] s[ei]).0 == base + k * size;
                        assert(ei < prefix.len());
                        assert(has_key(prefix, base + k * size));
                    }
                    if has_key(prefix, base + k * size) {
                        let ei = choose|ei: int|
                            0 <= ei < prefix.len() && (#[trigger] prefix[ei]).0 == base + k * size;
                        assert(s[ei].0 == base + k * size);
                        assert(has_key(s, base + k * size));
                    }
                } else {
                    assert(s[s.len() - 1].0 == aa);
                    assert(has_key(s, base + k * size));
                }
            }
        } else {
            assert(s == prefix);
            assert forall|k: int|
                0 <= k < n implies (has_key(s, base + #[trigger] (k * size)) <==> accepts_fresh(
                scan,
                V::decode(window_at(mem, V::byte_size() as int, k)),
            )) by {
                if k == n - 1 {
                    if has_key(s, base + k * size) {
                        let ei = choose|ei: int|
                            0 <= ei < s.len() && (#[trigger] s[ei]).0 == base + k * size;
                        assert((s[ei].0 as int) < base + (n - 1) * size);
                        assert(false);
                    }
                }
            }
        }
    }
}

/// Shape of the pairs a re-scan keeps: a subset of the previous addresses in
/// the previous order, each paired with its freshly decoded value, kept
/// exactly when the scan accepts the change.
pub proof fn lemma_rescan_pairs_props<V: Scannable>(
    scan: Scan<V>,
    prev: Seq<(usize, V)>,
    mem: Seq<u8>,
    base: int,
    i: int,
)
    requires
        1 <= V::byte_size(),
        0 <= i <= prev.len(),
        sorted_strict(prev.map_values(|p: (usize, V)| p.0)),
        mutually_aligned(prev.map_values(|p: (usize, V)| p.0), V::byte_size() as int),
    ensures
        rescan_pairs(scan, prev, mem, base, i).len() <= i,
        sorted_strict(rescan_pairs(scan, prev, mem, base, i).map_values(|p: (usize, V)| p.0)),
        mutually_aligned(
            rescan_pairs(scan, prev, mem, base, i).map_values(|p: (usize, V)| p.0),
            V::byte_size() as int,
        ),
        forall|p: int|
            0 <= p < rescan_pairs(scan, prev, mem, base, i).len() ==> rescan_pair_ok(
                scan,
                prev,
                mem,
                base,
                i,
                #[trigger] rescan_pairs(scan, prev, mem, base, i)[p],
            ),
    decreases i,
{
    let size = V::byte_size() as int;
    let s = rescan_pairs(scan, prev, mem, base, i);
    let keys = prev.map_values(|p: (usize, V)| p.0);
    if i > 0 {
        lemma_rescan_pairs_props(scan, prev, mem, base, i - 1);
        let prefix = rescan_pairs(scan, prev, mem, base, i - 1);
        let aa = prev[i - 1].0;
        assert forall|p: int| 0 <= p < prefix.len() implies prefix[p].0 < aa && (prefix[p].0 as int)
            % size == (aa as int) % size by {
            let j = choose|j: int|
                {
                    &&& 0 <= j < i - 1
                    &&& prefix[p] == ((#[trigger] prev[j]).0, V::decode(
                        mem.subrange(prev[j].0 - base, prev[j].0 - base + V::byte_size() as int),
                    ))
                    &&& accepts(
                        scan,
                        prev[j].1,
                        V::decode(
                            mem.subrange(
                                prev[j].0 - base,
                                prev[j].0 - base + V::byte_size() as int,
                            ),
                        ),
                    )
                };
            assert(keys[j] == prev[j].0 && keys[i - 1] == aa);
            assert(keys[j] < keys[i - 1]);
            assert((keys[j] as int) % size == (keys[i - 1] as int) % size);
        }
        assert forall|p: int| 0 <= p < prefix.len() implies rescan_pair_ok(
            scan,
            prev,
            mem,
            base,
            i,
            #[trigger] prefix[p],
        ) by {
            let j = choose|j: int|
                {
                    &&& 0 <= j < i - 1
                    &&& prefix[p] == ((#[trigger] prev[j]).0, V::decode(
                        mem.subrange(prev[j].0 - base, prev[j].0 - base + V::byte_size() as int),
                    ))
                    &&& accepts(
                        scan,
                        prev[j].1,
                        V::decode(
                            mem.subrange(
                                prev[j].0 - base,
                                prev[j].0 - base + V::byte_size() as int,
                            ),
                        ),
                    )
                };
            assert(0 <= j < i);
        }
        let nv = V::decode(mem.subrange(aa - base, aa - base + size));
        if accepts(scan, prev[i - 1].1, nv) {
            assert(s == prefix.push((aa, nv)));
            assert(s.map_values(|p: (usize, V)| p.0) =~= prefix.map_values(
                |p: (usize, V)| p.0,
            ).push(aa));
            assert(rescan_pair_ok(scan, prev, mem, base, i, s[s.len() - 1]));
        } else {
            assert(s == prefix);
        }
    }
}

impl<V: Scannable> Scan<V> {
    /// Check if the change from the given `old` value to the `new` memory
    /// bytes is acceptable according to the current scan type.
    pub fn acceptable(&self, old: V, new: &[u8]) -> (r: bool)
        requires
            new@.len() == V::byte_size(),
        ensures
            r == accepts(*self, old, V::decode(new@)),
    {
        match self {
            Scan::Exact(n) => n.eq_bytes(new),
            Scan::Unknown => true,
            Scan::InRange(low, high) => {
                // low <= new && new <= high
                let c1 = low.cmp_bytes(new);
                let c2 = high.cmp_bytes(new);
                !matches!(c1, Ordering::Greater) && !matches!(c2, Ordering::Less)
            },
            Scan::Unchanged => old.eq_bytes(new),
            Scan::Changed => !old.eq_bytes(new),
            Scan::Decreased => {
                let c = old.cmp_bytes(new);
                matches!(c, Ordering::Greater)
            },
            Scan::Increased => {
                let c = old.cmp_bytes(new);
                matches!(c, Ordering::Less)
            },
            Scan::DecreasedBy(n) => {
                let newv = V::from_bytes(new);
                let d = old.sub_value(&newv);
                n.eq_value(&d)
            },
            Scan::IncreasedBy(n) => {
                let newv = V::from_bytes(new);
                let d = newv.sub_value(&old);
                n.eq_value(&d)
            },
        }
    }

    /// Run the scan over the memory read from the given region.
    ///
    /// On an exact scan the result holds the aligned locations whose bytes
    /// equal the value, as one shared-value store; on a range scan the aligned
    /// locations whose decoded value lies between the bounds, compacted; on
    /// every other scan, which carries no meaning on a first pass, every
    /// aligned location with its current value, as one dense range.
    pub fn run(&self, info: RegionInfo, memory: Vec<u8>) -> (r: Region<V>)
        requires
            info.size == memory@.len(),
            memory@.len() as int % (V::byte_size() as int) == 0,
            info.base + info.size <= usize::MAX,
        ensures
            r.info == info,
            r.wf(),
            match *self {
                Scan::Exact(v) => {
                    &&& r.locations matches LocationsStyle::SameValue { locations, value }
                    &&& value == v
                    &&& locations@ == first_scan_pairs(
                        *self,
                        memory@,
                        info.base as int,
                        memory@.len() as int / (V::byte_size() as int),
                    ).map_values(|p: (usize, V)| p.0)
                },
                Scan::InRange(_, _) => {
                    let kept = first_scan_pairs(
                        *self,
                        memory@,
                        info.base as int,
                        memory@.len() as int / (V::byte_size() as int),
                    );
                    &&& r.locations.pairs() == kept
                    &&& if kept.len() > 1 {
                        r.locations.is_compaction_of(kept)
                    } else {
                        r.locations matches LocationsStyle::KeyValue(es) && es@ == kept
                    }
                },
                _ => {
                    &&& r.locations matches LocationsStyle::Range { start, end, values }
                    &&& start == info.base
                    &&& end == info.base + info.size
                    &&& values@ == first_scan_pairs(
                        *self,
                        memory@,
                        info.base as int,
                        memory@.len() as int / (V::byte_size() as int),
                    ).map_values(|p: (usize, V)| p.1)
                },
            },
    {
        proof {
            V::byte_size_bounds();
        }
        let size = V::size();
        let base = info.base;
        let mlen = memory.len();
        let n = mlen / size;
        proof {
            vstd::arithmetic::div_mod::lemma_fundamental_div_mod(mlen as int, size as int);
            assert((n as int) * (size as int) == (size as int) * (n as int)) by (nonlinear_arith);
            assert(n * size == mlen);
            lemma_first_scan_pairs_props(*self, memory@, base as int, n as int);
        }
        match self {
            Scan::Exact(value) => {
                let mut kept: Vec<usize> = Vec::new();
                let mut k: usize = 0;
                while k < n
                    invariant
                        k <= n,
                        size == V::byte_size(),
                        1 <= size <= 8,
                        mlen == memory@.len(),
                        (n as int) * (size as int) == mlen as int,
                        base == info.base,
                        base + mlen <= usize::MAX,
                        self matches Scan::Exact(v) && v == value,
                        kept@ == first_scan_pairs(
                            *self,
                            memory@,
                            base as int,
                            k as int,
                        ).map_values(|p: (usize, V)| p.0),
                    decreases n - k,
                {
                    proof {
                        assert((k as int) * (size as int) + size <= (n as int) * (size as int))
                            by (nonlinear_arith)
                            requires
                                (k as int) < (n as int),
                                size >= 1,
                        ;
                    }
                    let off = k * size;
                    let w = vstd::slice::slice_subrange(memory.as_slice(), off, off + size);
                    let hit = value.eq_bytes(w);
                    proof {
                        assert(w@ == window_at(memory@, size as int, k as int));
                        let fk = first_scan_pairs(*self, memory@, base as int, k as int);
                        let fk1 = first_scan_pairs(*self, memory@, base as int, k + 1);
                        if accepts_fresh(*self, V::decode(window_at(memory@, size as int, k as int))) {
                            assert(fk1 == fk.push(
                                (((base + k * size) as usize), V::decode(
                                    window_at(memory@, size as int, k as int),
                                )),
                            ));
                            assert(fk1.map_values(|p: (usize, V)| p.0) =~= fk.map_values(
                                |p: (usize, V)| p.0,
                            ).push((base + k * size) as usize));
                        } else {
                            assert(fk1 == fk);
                        }
                    }
                    if hit {
                        kept.push(base + k * size);
                    }
                    k += 1;
                }
                let locations = LocationsStyle::SameValue { locations: kept, value: *value };
                let r = Region { info, locations };
                proof {
                    let fs = first_scan_pairs(*self, memory@, base as int, n as int);
                    let ks = fs.map_values(|p: (usize, V)| p.0);
                    assert forall|i: int| 0 <= i < ks.len() implies {
                        &&& #[trigger] ks[i] + size <= usize::MAX
                        &&& base <= ks[i]
                        &&& ks[i] + size <= base + mlen
                        &&& (ks[i] - base) % (size as int) == 0
                    } by {
                        let kk = choose|kk: int|
                            {
                                &&& 0 <= kk < n
                                &&& fs[i] == (((base + kk * (V::byte_size() as int)) as usize),
                                V::decode(#[trigger] window_at(memory@, V::byte_size() as int, kk)))
                                &&& accepts_fresh(
                                    *self,
                                    V::decode(window_at(memory@, V::byte_size() as int, kk)),
                                )
                            };
                        assert(kk * (size as int) + size <= (n as int) * (size as int))
                            by (nonlinear_arith)
                            requires
                                0 <= kk,
                                kk < (n as int),
                                size >= 1,
                        ;
                        assert(kk * (size as int) >= 0) by (nonlinear_arith)
                            requires
                                kk >= 0,
                                size >= 1,
                        ;
                        vstd::arithmetic::div_mod::lemma_mod_multiples_basic(kk, size as int);
                        assert((size as int) * kk == kk * (size as int)) by (nonlinear_arith);
                    }
                    assert(r.wf());
                }
                r
            },
            Scan::InRange(_, _) => {
                let mut kept: Vec<(usize, V)> = Vec::new();
                let mut k: usize = 0;
                while k < n
                    invariant
                        k <= n,
                        size == V::byte_size(),
                        1 <= size <= 8,
                        mlen == memory@.len(),
                        (n as int) * (size as int) == mlen as int,
                        base == info.base,
                        base + mlen <= usize::MAX,
                        self matches Scan::InRange(_, _),
                        kept@ == first_scan_pairs(*self, memory@, base as int, k as int),
                    decreases n - k,
                {
                    proof {
                        assert((k as int) * (size as int) + size <= (n as int) * (size as int))
                            by (nonlinear_arith)
                            requires
                                (k as int) < (n as int),
                                size >= 1,
                        ;
                    }
                    let off = k * size;
                    let w = vstd::slice::slice_subrange(memory.as_slice(), off, off + size);
                    proof {
                        assert(w@ == window_at(memory@, size as int, k as int));
                    }
                    let (hit, decoded) = match self {
                        Scan::InRange(low, high) => {
                            let c1 = low.cmp_bytes(w);
                            let c2 = high.cmp_bytes(w);
                            let ok = !matches!(c1, Ordering::Greater) && !matches!(
                                c2,
                                Ordering::Less,
                            );
                            (ok, V::from_bytes(w))
                        },
                        _ => {
                            proof {
                                assert(false);
                            }
                            vstd::pervasive::unreached()
                        },
                    };
                    proof {
                        assert(hit == accepts_fresh(
                            *self,
                            V::decode(window_at(memory@, size as int, k as int)),
                        ));
                    }
                    if hit {
                        kept.push((base + k * size, decoded));
                    }
                    k += 1;
                }
                let ghost fs = first_scan_pairs(*self, memory@, base as int, n as int);
                proof {
                    let ks = fs.map_values(|p: (usize, V)| p.0);
                    assert forall|i: int| 0 <= i < fs.len() implies {
                        &&& (#[trigger] fs[i]).0 + size <= usize::MAX
                        &&& base <= fs[i].0
                        &&& fs[i].0 + size <= base + mlen
                        &&& (fs[i].0 - base) % (size as int) == 0
                    } by {
                        let kk = choose|kk: int|
                            {
                                &&& 0 <= kk < n
                                &&& fs[i] == (((base + kk * (V::byte_size() as int)) as usize),
                                V::decode(#[trigger] window_at(memory@, V::byte_size() as int, kk)))
                                &&& accepts_fresh(
                                    *self,
                                    V::decode(window_at(memory@, V::byte_size() as int, kk)),
                                )
                            };
                        assert(kk * (size as int) + size <= (n as int) * (size as int))
                            by (nonlinear_arith)
                            requires
                                0 <= kk,
                                kk < (n as int),
                                size >= 1,
                        ;
                        assert(kk * (size as int) >= 0) by (nonlinear_arith)
                            requires
                                kk >= 0,
                                size >= 1,
                        ;
                        vstd::arithmetic::div_mod::lemma_mod_multiples_basic(kk, size as int);
                        assert((size as int) * kk == kk * (size as int)) by (nonlinear_arith);
                    }
                    assert forall|i: int, j: int| 0 <= i < j < ks.len() implies ks[i] < ks[j] by {}
                }
                let mut locations = LocationsStyle::KeyValue(kept);
                proof {
                    assert(locations.addrs() == fs.map_values(|p: (usize, V)| p.0));
                    assert(locations.pairs() =~= fs);
                    assert(locations.wf());
                }
                locations.try_compact();
                let r = Region { info, locations };
                proof {
                    assert(r.locations.pairs() == fs);
                    assert forall|i: int|
                        0 <= i < r.locations.addrs().len() implies {
                            &&& base <= #[trigger] r.locations.addrs()[i]
                            &&& r.locations.addrs()[i] + size <= base + mlen
                            &&& (r.locations.addrs()[i] - base) % (size as int) == 0
                        } by {
                        assert(r.locations.addrs()[i] == r.locations.pairs()[i].0);
                        assert(fs[i].0 + size <= base + mlen);
                    }
                    assert(r.wf());
                }
                r
            },
            _ => {
                let mut values: Vec<V> = Vec::new();
                let mut k: usize = 0;
                while k < n
                    invariant
                        k <= n,
                        size == V::byte_size(),
                        1 <= size <= 8,
                        mlen == memory@.len(),
                        (n as int) * (size as int) == mlen as int,
                        base == info.base,
                        base + mlen <= usize::MAX,
                        !(*self is Exact) && !(*self is InRange),
                        values@ == first_scan_pairs(
                            *self,
                            memory@,
                            base as int,
                            k as int,
                        ).map_values(|p: (usize, V)| p.1),
                        values@.len() == k,
                    decreases n - k,
                {
                    proof {
                        assert((k as int) * (size as int) + size <= (n as int) * (size as int))
                            by (nonlinear_arith)
                            requires
                                (k as int) < (n as int),
                                size >= 1,
                        ;
                    }
                    let off = k * size;
                    let w = vstd::slice::slice_subrange(memory.as_slice(), off, off + size);
                    proof {
                        assert(w@ == window_at(memory@, size as int, k as int));
                        let fk = first_scan_pairs(*self, memory@, base as int, k as int);
                        let fk1 = first_scan_pairs(*self, memory@, base as int, k + 1);
                        assert(accepts_fresh(
                            *self,
                            V::decode(window_at(memory@, size as int, k as int)),
                        ));
                        assert(fk1 == fk.push(
                            (((base + k * size) as usize), V::decode(
                                window_at(memory@, size as int, k as int),
                            )),
                        ));
                        assert(fk1.map_values(|p: (usize, V)| p.1) =~= fk.map_values(
                            |p: (usize, V)| p.1,
                        ).push(V::decode(window_at(memory@, size as int, k as int))));
                    }
                    values.push(V::from_bytes(w));
                    k += 1;
                }
                let locations = LocationsStyle::Range { start: base, end: base + mlen, values };
                let r = Region { info, locations };
                proof {
                    assert(slot_count(base as int, base as int + mlen as int, size as int)
                        == n) by {
                        if mlen > 0 {
                            assert(n as int >= 1) by (nonlinear_arith)
                                requires
                                    (n as int) * (size as int) > 0,
                                    size >= 1,
                            ;
                            assert((n as int - 1) * (size as int) + (size as int) == (n as int) * (
                            size as int)) by (nonlinear_arith);
                            vstd::arithmetic::div_mod::lemma_fundamental_div_mod_converse(
                                mlen as int - 1,
                                size as int,
                                n as int - 1,
                                size as int - 1,
                            );
                        }
                    }
                    assert forall|i: int, j: int|
                        0 <= i < j < r.locations.addrs().len() implies r.locations.addrs()[i]
                        < r.locations.addrs()[j] by {
                        lemma_slot_in_span(base as int, base as int + mlen as int, size as int, i);
                        lemma_slot_in_span(base as int, base as int + mlen as int, size as int, j);
                        assert(i * (size as int) < j * (size as int)) by (nonlinear_arith)
                            requires
                                0 <= i < j,
                                size >= 1,
                        ;
                    }
                    assert forall|i: int|
                        0 <= i < r.locations.addrs().len() implies {
                            &&& base <= #[trigger] r.locations.addrs()[i]
                            &&& r.locations.addrs()[i] + size <= base + mlen
                            &&& (r.locations.addrs()[i] as int) % (size as int) == (
                            base as int) % (size as int)
                            &&& (r.locations.addrs()[i] - base) % (size as int) == 0
                        } by {
                        lemma_slot_in_span(base as int, base as int + mlen as int, size as int, i);
                        assert(i * (size as int) + size <= (n as int) * (size as int))
                            by (nonlinear_arith)
                            requires
                                0 <= i < n as int,
                                size >= 1,
                        ;
                        vstd::arithmetic::div_mod::lemma_mod_multiples_vanish(
                            i,
                            base as int,
                            size as int,
                        );
                        vstd::arithmetic::div_mod::lemma_mod_multiples_basic(i, size as int);
                        assert((size as int) * i == i * (size as int)) by (nonlinear_arith);
                    }
                    if mlen > 0 {
                        assert((n as int - 1) * (size as int) + (size as int) == (n as int) * (
                        size as int)) by (nonlinear_arith);
                        assert(slot_count(base as int, base as int + mlen as int, size as int)
                            == n);
                    }
                    assert(r.wf());
                }
                r
            },
        }
    }

    /// Re-run the scan over a previously scanned memory region, against the
    /// freshly read memory of that region.
    ///
    /// An unknown scan narrows nothing and returns a copy of the region. An
    /// exact scan keeps the surviving addresses whose fresh bytes equal the
    /// value, as one shared-value store. Every other scan keeps the surviving
    /// locations whose change from the recorded value it accepts, paired with
    /// their fresh values, compacted.
    pub fn rerun(&self, region: &Region<V>, memory: Vec<u8>) -> (r: Region<V>)
        requires
            region.wf(),
            memory@.len() == region.info.size,
        ensures
            r.info == region.info,
            r.wf(),
            match *self {
                Scan::Unknown => r.locations.equiv(region.locations),
                Scan::Exact(v) => {
                    &&& r.locations matches LocationsStyle::SameValue { locations, value }
                    &&& value == v
                    &&& locations@ == rescan_pairs(
                        *self,
                        region.locations.pairs(),
                        memory@,
                        region.info.base as int,
                        region.locations.pairs().len() as int,
                    ).map_values(|p: (usize, V)| p.0)
                },
                _ => {
                    let kept = rescan_pairs(
                        *self,
                        region.locations.pairs(),
                        memory@,
                        region.info.base as int,
                        region.locations.pairs().len() as int,
                    );
                    &&& r.locations.pairs() == kept
                    &&& if kept.len() > 1 {
                        r.locations.is_compaction_of(kept)
                    } else {
                        r.locations matches LocationsStyle::KeyValue(es) && es@ == kept
                    }
                },
            },
    {
        proof {
            V::byte_size_bounds();
            region.locations.lemma_wf_addr_bounds();
        }
        let size = V::size();
        let base = region.info.base;
        let ghost prev = region.locations.pairs();
        proof {
            assert(prev.map_values(|p: (usize, V)| p.0) =~= region.locations.addrs());
            assert(prev.map_values(|p: (usize, V)| p.1) =~= region.locations.vals());
            lemma_rescan_pairs_props(*self, prev, memory@, base as int, prev.len() as int);
        }
        if matches!(self, Scan::Unknown) {
            let locations = region.locations.clone();
            proof {
                locations.lemma_equiv_same_model(region.locations);
            }
            return Region { info: region.info, locations };
        }
        let addrs = region.locations.addresses();
        let n = addrs.len();
        if matches!(self, Scan::Exact(_)) {
            let value = match self {
                Scan::Exact(v) => *v,
                _ => vstd::pervasive::unreached(),
            };
            let mut kept: Vec<usize> = Vec::new();
            let mut i: usize = 0;
            while i < n
                invariant
                    i <= n,
                    size == V::byte_size(),
                    1 <= size <= 8,
                    region.wf(),
                    memory@.len() == region.info.size,
                    base == region.info.base,
                    prev == region.locations.pairs(),
                    n == prev.len(),
                    addrs@ == region.locations.addrs(),
                    n == addrs@.len(),
                    *self matches Scan::Exact(v) && v == value,
                    kept@ == rescan_pairs(
                        *self,
                        prev,
                        memory@,
                        base as int,
                        i as int,
                    ).map_values(|p: (usize, V)| p.0),
                decreases n - i,
            {
                let a = addrs[i];
                proof {
                    assert(prev[i as int].0 == a);
                }
                let off = a - base;
                let w = vstd::slice::slice_subrange(memory.as_slice(), off, off + size);
                let hit = value.eq_bytes(w);
                proof {
                    assert(w@ == memory@.subrange(a - base, a - base + size as int));
                    let rk = rescan_pairs(*self, prev, memory@, base as int, i as int);
                    let rk1 = rescan_pairs(*self, prev, memory@, base as int, i + 1);
                    let nv = V::decode(memory@.subrange(a - base, a - base + size as int));
                    if accepts(*self, prev[i as int].1, nv) {
                        assert(rk1 == rk.push((a, nv)));
                        assert(rk1.map_values(|p: (usize, V)| p.0) =~= rk.map_values(
                            |p: (usize, V)| p.0,
                        ).push(a));
                    } else {
                        assert(rk1 == rk);
                    }
                    assert(hit == accepts(*self, prev[i as int].1, nv));
                }
                if hit {
                    kept.push(a);
                }
                i += 1;
            }
            let locations = LocationsStyle::SameValue { locations: kept, value };
            let r = Region { info: region.info, locations };
            proof {
                let rs = rescan_pairs(*self, prev, memory@, base as int, prev.len() as int);
                let ks = rs.map_values(|p: (usize, V)| p.0);
                assert forall|p: int| 0 <= p < ks.len() implies {
                    &&& #[trigger] ks[p] + size <= usize::MAX
                    &&& base <= ks[p]
                    &&& ks[p] + size <= base + region.info.size
                    &&& (ks[p] - base) % (size as int) == 0
                } by {
                    let j = choose|j: int|
                        {
                            &&& 0 <= j < prev.len()
                            &&& rs[p] == ((#[trigger] prev[j]).0, V::decode(
                                memory@.subrange(
                                    prev[j].0 - base,
                                    prev[j].0 - base + V::byte_size() as int,
                                ),
                            ))
                            &&& accepts(
                                *self,
                                prev[j].1,
                                V::decode(
                                    memory@.subrange(
                                        prev[j].0 - base,
                                        prev[j].0 - base + V::byte_size() as int,
                                    ),
                                ),
                            )
                        };
                    assert(prev[j].0 == region.locations.addrs()[j]);
                }
                assert(r.wf());
            }
            r
        } else {
            let mut kept: Vec<(usize, V)> = Vec::new();
            let mut i: usize = 0;
            while i < n
                invariant
                    i <= n,
                    size == V::byte_size(),
                    1 <= size <= 8,
                    region.wf(),
                    memory@.len() == region.info.size,
                    base == region.info.base,
                    prev == region.locations.pairs(),
                    n == prev.len(),
                    addrs@ == region.locations.addrs(),
                    n == addrs@.len(),
                    kept@ == rescan_pairs(*self, prev, memory@, base as int, i as int),
                decreases n - i,
            {
                let a = addrs[i];
                proof {
                    assert(prev[i as int].0 == a);
                    assert(region.locations.addrs().contains(a));
                }
                let old_value = region.value_at(a);
                proof {
                    region.locations.lemma_addr_index(a);
                    assert(region.locations.addr_index(a) == i as int);
                    assert(old_value == prev[i as int].1);
                }
                let off = a - base;
                let w = vstd::slice::slice_subrange(memory.as_slice(), off, off + size);
                let hit = self.acceptable(old_value, w);
                proof {
                    assert(w@ == memory@.subrange(a - base, a - base + size as int));
                    let rk = rescan_pairs(*self, prev, memory@, base as int, i as int);
                    let rk1 = rescan_pairs(*self, prev, memory@, base as int, i + 1);
                    let nv = V::decode(memory@.subrange(a - base, a - base + size as int));
                    if accepts(*self, prev[i as int].1, nv) {
                        assert(rk1 == rk.push((a, nv)));
                    } else {
                        assert(rk1 == rk);
                    }
                }
                if hit {
                    kept.push((a, V::from_bytes(w)));
                }
                i += 1;
            }
            let ghost rs = rescan_pairs(*self, prev, memory@, base as int, prev.len() as int);
            proof {
                assert forall|p: int| 0 <= p < rs.len() implies {
                    &&& (#[trigger] rs[p]).0 + size <= usize::MAX
                    &&& base <= rs[p].0
                    &&& rs[p].0 + size <= base + region.info.size
                    &&& (rs[p].0 - base) % (size as int) == 0
                } by {
                    let j = choose|j: int|
                        {
                            &&& 0 <= j < prev.len()
                            &&& rs[p] == ((#[trigger] prev[j]).0, V::decode(
                                memory@.subrange(
                                    prev[j].0 - base,
                                    prev[j].0 - base + V::byte_size() as int,
                                ),
                            ))
                            &&& accepts(
                                *self,
                                prev[j].1,
                                V::decode(
                                    memory@.subrange(
                                        prev[j].0 - base,
                                        prev[j].0 - base + V::byte_size() as int,
                                    ),
                                ),
                            )
                        };
                    assert(prev[j].0 == region.locations.addrs()[j]);
                }
            }
            let mut locations = LocationsStyle::KeyValue(kept);
            proof {
                assert(locations.addrs() == rs.map_values(|p: (usize, V)| p.0));
                assert(locations.pairs() =~= rs);
                assert(locations.wf());
            }
            locations.try_compact();
            let r = Region { info: region.info, locations };
            proof {
                assert(r.locations.pairs() == rs);
                assert forall|p: int|
                    0 <= p < r.locations.addrs().len() implies {
                        &&& base <= #[trigger] r.locations.addrs()[p]
                        &&& r.locations.addrs()[p] + size <= base + region.info.size
                        &&& (r.locations.addrs()[p] - base) % (size as int) == 0
                    } by {
                    assert(r.locations.addrs()[p] == r.locations.pairs()[p].0);
                    assert(rs[p].0 + size <= base + region.info.size);
                }
                assert(r.wf());
            }
            r
        }
    }
}

/// A re-scan never widens a result set: it keeps at most the locations it was
/// given, and an unknown re-scan keeps exactly all of them. `rerun` ensures
/// that its result's pairs are `rescan_pairs(..)` of the previous pairs, so
/// this bounds the length of every re-scanned region.
pub proof fn lemma_rescan_monotonicity<V: Scannable>(
    scan: Scan<V>,
    prev: Seq<(usize, V)>,
    mem: Seq<u8>,
    base: int,
    i: int,
)
    requires
        0 <= i <= prev.len(),
    ensures
        rescan_pairs(scan, prev, mem, base, i).len() <= i,
        scan is Unknown ==> rescan_pairs(scan, prev, mem, base, i).len() == i,
    decreases i,
{
    if i > 0 {
        lemma_rescan_monotonicity(scan, prev, mem, base, i - 1);
    }
}

/// A re-scan that accepts the change at every previous location keeps every
/// previous location, in order.
pub proof fn lemma_rescan_keeps_all<V: Scannable>(
    scan: Scan<V>,
    prev: Seq<(usize, V)>,
    mem: Seq<u8>,
    base: int,
    i: int,
)
    requires
        0 <= i <= prev.len(),
        forall|j: int|
            0 <= j < i ==> accepts(
                scan,
                (#[trigger] prev[j]).1,
                V::decode(mem.subrange(prev[j].0 - base, prev[j].0 - base + V::byte_size() as int)),
            ),
    ensures
        rescan_pairs(scan, prev, mem, base, i).map_values(|p: (usize, V)| p.0) == prev.take(
            i,
        ).map_values(|p: (usize, V)| p.0),
    decreases i,
{
    if i > 0 {
        lemma_rescan_keeps_all(scan, prev, mem, base, i - 1);
        let a = prev[i - 1].0;
        let nv = V::decode(mem.subrange(a - base, a - base + V::byte_size() as int));
        assert(accepts(scan, prev[i - 1].1, nv));
        assert(rescan_pairs(scan, prev, mem, base, i) == rescan_pairs(
            scan,
            prev,
            mem,
            base,
            i - 1,
        ).push((a, nv)));
        assert(prev.take(i).drop_last() =~= prev.take(i - 1));
        assert(rescan_pairs(scan, prev, mem, base, i).map_values(|p: (usize, V)| p.0)
            =~= rescan_pairs(scan, prev, mem, base, i - 1).map_values(|p: (usize, V)| p.0).push(a));
        assert(prev.take(i).map_values(|p: (usize, V)| p.0) =~= prev.take(i - 1).map_values(
            |p: (usize, V)| p.0,
        ).push(a));
    } else {
        assert(rescan_pairs(scan, prev, mem, base, 0).map_values(|p: (usize, V)| p.0)
            =~= prev.take(0).map_values(|p: (usize, V)| p.0));
    }
}

/// Exact scan fixpoint: re-scanning the result of an exact first scan against
/// the same memory with the same exact scan keeps the same addresses.
///
/// `fs` is what the first scan keeps; the first scan stores them as one
/// shared-value store, whose pairs carry the scanned value `v` at each kept
/// address; re-scanning those pairs keeps every one of them.
pub proof fn lemma_exact_rescan_fixpoint<V: Scannable>(v: V, mem: Seq<u8>, base: int, n: int)
    requires
        1 <= V::byte_size(),
        0 <= base,
        n >= 0,
        base + n * (V::byte_size() as int) <= usize::MAX + 1,
    ensures
        ({
            let fs = first_scan_pairs(Scan::Exact(v), mem, base, n);
            let prev = fs.map_values(|p: (usize, V)| (p.0, v));
            rescan_pairs(Scan::Exact(v), prev, mem, base, prev.len() as int).map_values(
                |p: (usize, V)| p.0,
            ) == fs.map_values(|p: (usize, V)| p.0)
        }),
{
    let size = V::byte_size() as int;
    let scan = Scan::Exact(v);
    let fs = first_scan_pairs(scan, mem, base, n);
    let prev = fs.map_values(|p: (usize, V)| (p.0, v));
    lemma_first_scan_pairs_props(scan, mem, base, n);
    assert forall|j: int|
        0 <= j < prev.len() implies accepts(
        scan,
        (#[trigger] prev[j]).1,
        V::decode(mem.subrange(prev[j].0 - base, prev[j].0 - base + V::byte_size() as int)),
    ) by {
        let k = choose|k: int|
            {
                &&& 0 <= k < n
                &&& fs[j] == (((base + k * (V::byte_size() as int)) as usize), V::decode(
                    #[trigger] window_at(mem, V::byte_size() as int, k),
                ))
                &&& accepts_fresh(scan, V::decode(window_at(mem, V::byte_size() as int, k)))
            };
        assert(k * size + size <= n * size) by (nonlinear_arith)
            requires
                0 <= k,
                k < n,
                size >= 1,
        ;
        assert(k * size >= 0) by (nonlinear_arith)
            requires
                k >= 0,
                size >= 1,
        ;
        assert(prev[j].0 == (base + k * size) as usize);
        assert(prev[j].0 - base == k * size);
        assert(mem.subrange(prev[j].0 - base, prev[j].0 - base + size) == window_at(mem, size, k));
    }
    lemma_rescan_keeps_all(scan, prev, mem, base, prev.len() as int);
    assert(prev.take(prev.len() as int) =~= prev);
    assert(prev.map_values(|p: (usize, V)| p.0) =~= fs.map_values(|p: (usize, V)| p.0));
}

} // verus!
